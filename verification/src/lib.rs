//! Reconciliation of bills of materials.
//!
//! A bill of materials is a table of components. This crate reads such
//! tables, finds out which column carries which role, compares two tables
//! and merges one into another, and says of each operation exactly what it
//! returns.
//!
//! * [`models`] holds the table and the role-aware access to its cells.
//! * [`builder`] classifies freshly read rows: header, roles, column order
//!   and findings.
//! * [`compare`] reports, key by key, what changed between two tables.
//! * [`merge`] lays one table over another.
//! * [`matchers`] matches rows against rules and assigns names.
//! * [`cleaner`], [`formatter`], [`reference`] and [`normalizer`] rework the
//!   rows of a table.
//! * [`exporters`] and [`csv_format`] write a table as text; [`cad`] and
//!   [`csv_format`] read one.
//! * [`header`] and [`text`] hold the string operations under all of this.
//! * [`dictionary`], [`files`] and [`project`] decide what an application
//!   around the library needs decided.
//!
//! Contracts speak of a string by its characters and of a table by its
//! view, [`models::Table`].

pub mod builder;
pub mod cad;
pub mod cleaner;
pub mod compare;
pub mod csv_format;
pub mod dictionary;
pub mod exporters;
pub mod files;
pub mod formatter;
pub mod header;
pub mod matchers;
pub mod merge;
pub mod models;
pub mod normalizer;
pub mod project;
pub mod reference;
pub mod text;
