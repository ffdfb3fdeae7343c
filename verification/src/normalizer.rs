//! A structured view of rows, derived from cells and column roles.

use crate::exporters::text_map;
use crate::models::{column_views, grid, AppError, ColumnMeta};
use crate::text::{same_text, trim, trimmed, views};
use vstd::hash_map::StringHashMap;
use vstd::prelude::*;

verus! {

/// The role of one column.
#[derive(Clone, Debug)]
pub struct ColumnRole {
    pub column_id: String,
    pub role: String,
}

/// One row by its fields: reference, part number, and the other cells by
/// the names of their columns.
pub struct BomRow {
    pub reference: String,
    pub part_no: String,
    pub attributes: StringHashMap<String>,
}

/// What a `BomRow` stands for in contracts.
pub struct Fields {
    pub reference: Seq<char>,
    pub part_no: Seq<char>,
    pub attributes: Map<Seq<char>, Seq<char>>,
}

impl View for BomRow {
    type V = Fields;

    open spec fn view(&self) -> Fields {
        Fields {
            reference: self.reference@,
            part_no: self.part_no@,
            attributes: text_map(self.attributes@),
        }
    }
}

/// What a list of column roles stands for in contracts.
pub open spec fn role_pairs(roles: Seq<ColumnRole>) -> Seq<(Seq<char>, Seq<char>)> {
    Seq::new(roles.len(), |i: int| (roles[i].column_id@, roles[i].role@))
}

/// The role that the first of the first `n` entries for a column gives it.
pub open spec fn role_of(roles: Seq<(Seq<char>, Seq<char>)>, id: Seq<char>, n: int) -> Option<
    Seq<char>,
>
    decreases n,
{
    if n <= 0 {
        None
    } else {
        match role_of(roles, id, n - 1) {
            Some(r) => Some(r),
            None => if roles[n - 1].0 == id {
                Some(roles[n - 1].1)
            } else {
                None
            },
        }
    }
}

/// Whether some column has the role `role`.
pub open spec fn some_column_is(roles: Seq<(Seq<char>, Seq<char>)>, role: Seq<char>) -> bool {
    exists|i: int| 0 <= i < roles.len() && (#[trigger] roles[i]).1 == role
}

/// The trimmed cell of a row under column `c`; empty where the row ends
/// before it.
pub open spec fn cell_text(row: Seq<Seq<char>>, c: int) -> Seq<char> {
    if c < row.len() {
        trimmed(row[c])
    } else {
        Seq::empty()
    }
}

/// The fields of a row after its first `n` columns. A reference column
/// gives the reference and a part-number column the part number, the last
/// of several. Every other cell that holds something is kept under the
/// name of its column, and that of a manufacturer column under
/// `manufacturer` as well.
pub open spec fn fields_after(
    columns: Seq<(Seq<char>, Seq<char>)>,
    row: Seq<Seq<char>>,
    roles: Seq<(Seq<char>, Seq<char>)>,
    n: int,
) -> Fields
    decreases n,
{
    if n <= 0 {
        Fields { reference: Seq::empty(), part_no: Seq::empty(), attributes: Map::empty() }
    } else {
        let before = fields_after(columns, row, roles, n - 1);
        let value = cell_text(row, n - 1);
        let role = role_of(roles, columns[n - 1].0, roles.len() as int);
        let name = columns[n - 1].1;
        if role == Some("ref"@) {
            Fields { reference: value, ..before }
        } else if role == Some("part_no"@) {
            Fields { part_no: value, ..before }
        } else if value.len() == 0 {
            before
        } else if role == Some("manufacturer"@) {
            Fields {
                attributes: before.attributes.insert("manufacturer"@, value).insert(name, value),
                ..before
            }
        } else {
            Fields { attributes: before.attributes.insert(name, value), ..before }
        }
    }
}

/// What is said where the roles name no reference or no part number.
pub open spec fn roles_missing_message() -> Seq<char> {
    "部品番号（ref）と部品型番（part_no）の列を指定してください。"@
}

/// Finds the role of a column.
fn find_role(roles: &Vec<ColumnRole>, id: &str) -> (r: Option<usize>)
    ensures
        match r {
            Some(i) => i < roles.len() && role_of(role_pairs(roles@), id@, roles.len() as int)
                == Some(roles@[i as int].role@),
            None => role_of(role_pairs(roles@), id@, roles.len() as int) is None,
        },
{
    let ghost pairs = role_pairs(roles@);
    let mut i: usize = 0;
    while i < roles.len()
        invariant
            i <= roles.len(),
            pairs == role_pairs(roles@),
            role_of(pairs, id@, i as int) is None,
        decreases roles.len() - i,
    {
        proof {
            assert(pairs[i as int] == (roles@[i as int].column_id@, roles@[i as int].role@));
        }
        if same_text(roles[i].column_id.as_str(), id) {
            proof {
                lemma_role_found(pairs, id@, i as int, roles.len() as int);
            }
            return Some(i);
        }
        i += 1;
    }
    None
}

/// An entry for a column, with none before it, gives the column its role.
pub proof fn lemma_role_found(roles: Seq<(Seq<char>, Seq<char>)>, id: Seq<char>, i: int, n: int)
    requires
        0 <= i < n,
        role_of(roles, id, i) is None,
        roles[i].0 == id,
    ensures
        role_of(roles, id, n) == Some(roles[i].1),
    decreases n - i,
{
    if n > i + 1 {
        lemma_role_found(roles, id, i, n - 1);
    }
}

/// Whether some column has the role `role`.
fn has_role(roles: &Vec<ColumnRole>, role: &str) -> (r: bool)
    ensures
        r == some_column_is(role_pairs(roles@), role@),
{
    let ghost pairs = role_pairs(roles@);
    let mut i: usize = 0;
    while i < roles.len()
        invariant
            i <= roles.len(),
            pairs == role_pairs(roles@),
            forall|k: int| 0 <= k < i ==> (#[trigger] pairs[k]).1 != role@,
        decreases roles.len() - i,
    {
        proof {
            assert(pairs[i as int].1 == roles@[i as int].role@);
        }
        if same_text(roles[i].role.as_str(), role) {
            return true;
        }
        i += 1;
    }
    false
}

/// Reads the fields of one row.
fn normalize_row(columns: &Vec<ColumnMeta>, row: &Vec<String>, roles: &Vec<ColumnRole>) -> (r:
    BomRow)
    ensures
        r@ == fields_after(
            column_views(columns@),
            views(row@),
            role_pairs(roles@),
            columns.len() as int,
        ),
{
    let ghost cols = column_views(columns@);
    let ghost srow = views(row@);
    let ghost pairs = role_pairs(roles@);
    let mut out = BomRow {
        reference: String::new(),
        part_no: String::new(),
        attributes: StringHashMap::new(),
    };
    proof {
        assert(out@.attributes =~= Map::empty());
    }
    let mut c: usize = 0;
    while c < columns.len()
        invariant
            c <= columns.len(),
            cols == column_views(columns@),
            srow == views(row@),
            pairs == role_pairs(roles@),
            out@ == fields_after(cols, srow, pairs, c as int),
        decreases columns.len() - c,
    {
        let value = if c < row.len() {
            trim(row[c].as_str())
        } else {
            String::new()
        };
        proof {
            assert(cols[c as int] == (columns@[c as int].id@, columns@[c as int].name@));
            if c < row.len() {
                assert(srow[c as int] == row@[c as int]@);
            }
        }
        let found = find_role(roles, columns[c].id.as_str());
        let is_ref = match found {
            Some(i) => same_text(roles[i].role.as_str(), "ref"),
            None => false,
        };
        let is_part = match found {
            Some(i) => same_text(roles[i].role.as_str(), "part_no"),
            None => false,
        };
        let is_maker = match found {
            Some(i) => same_text(roles[i].role.as_str(), "manufacturer"),
            None => false,
        };
        let ghost before = out@;
        if is_ref {
            out.reference = value;
        } else if is_part {
            out.part_no = value;
        } else if !value.as_str().is_empty() {
            if is_maker {
                out.attributes.insert("manufacturer".to_owned(), value.clone());
                out.attributes.insert(columns[c].name.clone(), value);
                proof {
                    assert(out@.attributes =~= before.attributes.insert(
                        "manufacturer"@,
                        cell_text(srow, c as int),
                    ).insert(cols[c as int].1, cell_text(srow, c as int)));
                }
            } else {
                out.attributes.insert(columns[c].name.clone(), value);
                proof {
                    assert(out@.attributes =~= before.attributes.insert(
                        cols[c as int].1,
                        cell_text(srow, c as int),
                    ));
                }
            }
        }
        c += 1;
    }
    out
}

/// Reads rows by their fields.
///
/// The roles must name a reference column and a part-number column; else
/// the result is `Err`. Each row gives one structured row.
pub fn normalize_bom_data(
    columns: Vec<ColumnMeta>,
    rows: Vec<Vec<String>>,
    column_roles: Vec<ColumnRole>,
) -> (r: Result<Vec<BomRow>, AppError>)
    ensures
        match r {
            Ok(out) => some_column_is(role_pairs(column_roles@), "ref"@) && some_column_is(
                role_pairs(column_roles@),
                "part_no"@,
            ) && out@.len() == rows@.len() && forall|i: int|
                0 <= i < out@.len() ==> (#[trigger] out@[i])@ == fields_after(
                    column_views(columns@),
                    grid(rows@)[i],
                    role_pairs(column_roles@),
                    columns@.len() as int,
                ),
            Err(e) => !(some_column_is(role_pairs(column_roles@), "ref"@) && some_column_is(
                role_pairs(column_roles@),
                "part_no"@,
            )) && e.message@ == roles_missing_message(),
        },
{
    if !has_role(&column_roles, "ref") || !has_role(&column_roles, "part_no") {
        return Err(
            AppError::new("部品番号（ref）と部品型番（part_no）の列を指定してください。"),
        );
    }
    let mut out: Vec<BomRow> = Vec::new();
    let mut i: usize = 0;
    while i < rows.len()
        invariant
            i <= rows.len(),
            out.len() == i,
            forall|k: int|
                0 <= k < i ==> (#[trigger] out@[k])@ == fields_after(
                    column_views(columns@),
                    grid(rows@)[k],
                    role_pairs(column_roles@),
                    columns@.len() as int,
                ),
        decreases rows.len() - i,
    {
        proof {
            assert(grid(rows@)[i as int] == views(rows@[i as int]@));
        }
        out.push(normalize_row(&columns, &rows[i], &column_roles));
        i += 1;
    }
    Ok(out)
}

} // verus!
