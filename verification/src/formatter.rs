//! Format rules for a table.

use crate::models::{copy_table, ParseResult};
use vstd::prelude::*;

verus! {

/// The choices for the format rules.
#[derive(Clone, Debug)]
pub struct FormatOptions {
    pub use_strikethrough: bool,
    pub use_cell_color: bool,
}

/// Applies the format rules to a table. No rule changes anything yet: the
/// result is the table as it is, whatever the options.
pub fn apply_format_rules(parse: &ParseResult, _options: &FormatOptions) -> (r: ParseResult)
    ensures
        r@ == parse@,
{
    copy_table(parse)
}

} // verus!
