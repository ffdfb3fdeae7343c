//! Cleaning of the cells of a table.

use crate::models::{grid, rebuild, with_cells, AppError, ParseResult};
use crate::text::{blank, cleanse_string, cleansed, is_blank, views};
use vstd::prelude::*;

verus! {

/// A row with its blank cells filled from the row above: a blank cell
/// takes what the row above holds in its column, if that row reaches so
/// far.
pub open spec fn filled_from(row: Seq<Seq<char>>, above: Seq<Seq<char>>) -> Seq<Seq<char>> {
    Seq::new(
        row.len(),
        |c: int|
            if is_blank(row[c]) && c < above.len() {
                above[c]
            } else {
                row[c]
            },
    )
}

/// Row `r` after filling: the first row stays, every other row is filled
/// from the filled row above it.
pub open spec fn filled_row(rows: Seq<Seq<Seq<char>>>, r: int) -> Seq<Seq<char>>
    decreases r,
{
    if r <= 0 {
        rows[0]
    } else {
        filled_from(rows[r], filled_row(rows, r - 1))
    }
}

/// The rows after filling.
pub open spec fn filled_rows(rows: Seq<Seq<Seq<char>>>) -> Seq<Seq<Seq<char>>> {
    Seq::new(rows.len(), |r: int| filled_row(rows, r))
}

/// Fills one row from the row above.
fn fill_row(row: &Vec<String>, above: &Vec<String>) -> (r: Vec<String>)
    ensures
        views(r@) == filled_from(views(row@), views(above@)),
{
    let mut out: Vec<String> = Vec::new();
    let mut c: usize = 0;
    while c < row.len()
        invariant
            c <= row.len(),
            out.len() == c,
            forall|k: int|
                0 <= k < c ==> (#[trigger] out@[k])@ == filled_from(views(row@), views(above@))[k],
        decreases row.len() - c,
    {
        proof {
            assert(views(row@)[c as int] == row@[c as int]@);
        }
        if blank(row[c].as_str()) && c < above.len() {
            proof {
                assert(views(above@)[c as int] == above@[c as int]@);
            }
            out.push(above[c].clone());
        } else {
            out.push(row[c].clone());
        }
        c += 1;
    }
    proof {
        assert(views(out@) =~= filled_from(views(row@), views(above@)));
    }
    out
}

/// Fills the blank cells of a table from the rows above them. The rows
/// keep their numbers; the result carries no findings. Filling never
/// fails.
pub fn fill_blank_cells(parse: &ParseResult) -> (r: Result<ParseResult, AppError>)
    ensures
        r is Ok,
        r->Ok_0@ == with_cells(parse@, filled_rows(parse@.rows)),
{
    let ghost g = grid(parse.rows@);
    let mut rows: Vec<Vec<String>> = Vec::new();
    let mut r: usize = 0;
    while r < parse.rows.len()
        invariant
            r <= parse.rows.len(),
            g == grid(parse.rows@),
            rows.len() == r,
            forall|k: int| 0 <= k < r ==> views((#[trigger] rows@[k])@) == filled_row(g, k),
        decreases parse.rows.len() - r,
    {
        proof {
            assert(g[r as int] == views(parse.rows@[r as int]@));
        }
        let row = if r == 0 {
            crate::models::copy_row(&parse.rows[r])
        } else {
            fill_row(&parse.rows[r], &rows[r - 1])
        };
        rows.push(row);
        r += 1;
    }
    proof {
        assert(grid(rows@) =~= filled_rows(g));
    }
    Ok(rebuild(parse, rows, false))
}

/// The rows with every cell cleansed.
pub open spec fn cleansed_rows(rows: Seq<Seq<Seq<char>>>) -> Seq<Seq<Seq<char>>> {
    Seq::new(rows.len(), |r: int| Seq::new(rows[r].len(), |c: int| cleansed(rows[r][c])))
}

/// Cleanses every cell of a table: round brackets go, wide characters
/// become narrow. The rows keep their numbers; the result carries no
/// findings.
pub fn cleanse_text_data(parse: &ParseResult) -> (r: ParseResult)
    ensures
        r@ == with_cells(parse@, cleansed_rows(parse@.rows)),
{
    let ghost g = grid(parse.rows@);
    let mut rows: Vec<Vec<String>> = Vec::new();
    let mut r: usize = 0;
    while r < parse.rows.len()
        invariant
            r <= parse.rows.len(),
            g == grid(parse.rows@),
            rows.len() == r,
            forall|k: int| 0 <= k < r ==> views((#[trigger] rows@[k])@) == cleansed_rows(g)[k],
        decreases parse.rows.len() - r,
    {
        let row = &parse.rows[r];
        let mut out: Vec<String> = Vec::new();
        let mut c: usize = 0;
        while c < row.len()
            invariant
                c <= row.len(),
                out.len() == c,
                forall|k: int| 0 <= k < c ==> (#[trigger] out@[k])@ == cleansed(row@[k]@),
            decreases row.len() - c,
        {
            out.push(cleanse_string(row[c].as_str()));
            c += 1;
        }
        proof {
            assert(g[r as int] == views(row@));
            assert(views(out@) =~= cleansed_rows(g)[r as int]);
        }
        rows.push(out);
        r += 1;
    }
    proof {
        assert(grid(rows@) =~= cleansed_rows(g));
    }
    rebuild(parse, rows, false)
}

} // verus!
