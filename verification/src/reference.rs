//! Expansion of reference ranges and splitting of reference lists.

use crate::models::{copy_row, grid, rebuild, role_ref, with_rows, AppError, ParseResult, Table};
use crate::text::{
    char_is_letter, chars_of, decimal, decimal_string, is_ascii_letter, list_references, listed,
    parse_number, parsed_number, pieces, split_on, string_of, strip_blanks, views, without_blanks,
};
use vstd::prelude::*;
use vstd::string::StringExecFns;

verus! {

/// The number of letters at the start of `s`, counted from `i`.
pub open spec fn skip_letters(s: Seq<char>, i: int) -> int
    decreases s.len() - i,
{
    if 0 <= i < s.len() && is_ascii_letter(s[i]) {
        skip_letters(s, i + 1)
    } else {
        i
    }
}

/// The letters at the start of `s`.
pub open spec fn letter_prefix(s: Seq<char>) -> Seq<char> {
    s.take(skip_letters(s, 0))
}

/// What follows the letters at the start of `s`.
pub open spec fn after_letters(s: Seq<char>) -> Seq<char> {
    s.skip(skip_letters(s, 0))
}

/// Where the letters at the start of `v` end.
fn letters_end(v: &Vec<char>) -> (r: usize)
    ensures
        r == skip_letters(v@, 0),
        r <= v.len(),
{
    let mut i: usize = 0;
    while i < v.len() && char_is_letter(v[i])
        invariant
            i <= v.len(),
            skip_letters(v@, i as int) == skip_letters(v@, 0),
        decreases v.len() - i,
    {
        i += 1;
    }
    i
}

/// Parts a designator into the letters at its start and the rest.
pub fn split_prefix_digits(value: &str) -> (r: (String, String))
    ensures
        r.0@ == letter_prefix(value@),
        r.1@ == after_letters(value@),
{
    let v = chars_of(value);
    let end = letters_end(&v);
    (string_of(&v, 0, end), string_of(&v, end, v.len()))
}

/// The mark between the two ends of a range.
pub open spec fn range_mark() -> Seq<char> {
    seq!['-']
}

/// The range that a reference writes, as prefix, first and last number: two
/// designators with one `-` between them, each with a number after its
/// letters, the first or both with letters, and with the same letters where
/// both have some. The numbers fit 32 bits.
pub open spec fn range_of(reference: Seq<char>) -> Option<(Seq<char>, u32, u32)> {
    let parts = pieces(reference, range_mark());
    if parts.len() != 2 {
        None
    } else {
        let first_letters = letter_prefix(parts[0]);
        let last_letters = letter_prefix(parts[1]);
        let prefix = if first_letters.len() > 0 {
            first_letters
        } else {
            last_letters
        };
        let first = parsed_number(after_letters(parts[0]), 0xffff_ffff);
        let last = parsed_number(after_letters(parts[1]), 0xffff_ffff);
        if prefix.len() == 0 || (last_letters.len() > 0 && last_letters != prefix) || first is None
            || last is None {
            None
        } else {
            Some((prefix, first->0 as u32, last->0 as u32))
        }
    }
}

/// Reads the range that a reference writes.
pub fn parse_reference_range(reference: &str) -> (r: Option<(String, u32, u32)>)
    ensures
        match r {
            Some((prefix, first, last)) => range_of(reference@) == Some((prefix@, first, last)),
            None => range_of(reference@) is None,
        },
{
    let v = chars_of(reference);
    let mut marks: Vec<char> = Vec::new();
    marks.push('-');
    proof {
        assert(marks@ =~= range_mark());
    }
    let parts = split_on(&v, &marks);
    if parts.len() != 2 {
        return None;
    }
    let a = &parts[0];
    let b = &parts[1];
    let a_end = letters_end(a);
    let b_end = letters_end(b);
    let first = parse_number(a, a_end, 0xffff_ffff);
    let last = parse_number(b, b_end, 0xffff_ffff);
    let a_letters = string_of(a, 0, a_end);
    let b_letters = string_of(b, 0, b_end);
    proof {
        assert(a@.subrange(0, a_end as int) =~= letter_prefix(a@));
        assert(b@.subrange(0, b_end as int) =~= letter_prefix(b@));
    }
    let prefix = if a_end > 0 {
        a_letters
    } else {
        b_letters.clone()
    };
    if prefix.as_str().is_empty() || (b_end > 0 && b_letters != prefix) {
        return None;
    }
    match (first, last) {
        (Some(s), Some(e)) => Some((prefix, s as u32, e as u32)),
        _ => None,
    }
}

/// A row with `text` in each of the columns `cols` that it reaches.
pub open spec fn with_reference(row: Seq<Seq<char>>, cols: Seq<usize>, text: Seq<char>) -> Seq<
    Seq<char>,
> {
    Seq::new(
        row.len(),
        |c: int|
            if cols.contains(c as usize) {
                text
            } else {
                row[c]
            },
    )
}

/// Writes `text` into each of the columns `cols` of a copy of `row`.
fn set_reference(row: &Vec<String>, cols: &Vec<usize>, text: &str) -> (r: Vec<String>)
    ensures
        views(r@) == with_reference(views(row@), cols@, text@),
{
    let mut out = copy_row(row);
    let mut i: usize = 0;
    while i < cols.len()
        invariant
            i <= cols.len(),
            out.len() == row.len(),
            forall|c: int|
                0 <= c < row.len() ==> (#[trigger] out@[c])@ == if cols@.take(i as int).contains(
                    c as usize,
                ) {
                    text@
                } else {
                    row@[c]@
                },
        decreases cols.len() - i,
    {
        let col = cols[i];
        let ghost before = cols@.take(i as int);
        let ghost after = cols@.take(i + 1);
        proof {
            assert(after =~= before.push(col));
            assert forall|c: usize| after.contains(c) == (before.contains(c) || c == col) by {
                if before.contains(c) {
                    let k = choose|k: int| 0 <= k < before.len() && before[k] == c;
                    assert(after[k] == c);
                }
                if c == col {
                    assert(after[i as int] == c);
                }
            }
        }
        if col < out.len() {
            out.set(col, text.to_owned());
        }
        i += 1;
    }
    proof {
        assert(cols@.take(cols.len() as int) =~= cols@);
        assert(views(out@) =~= with_reference(views(row@), cols@, text@));
    }
    out
}

impl Table {
    /// The range that the key of row `r` writes, spaces left aside.
    pub open spec fn row_range(self, r: int) -> Option<(Seq<char>, u32, u32)> {
        range_of(without_blanks(self.key(r)))
    }

    /// Whether the key of row `r` writes a range that ends before it starts.
    pub open spec fn inverted(self, r: int) -> bool {
        match self.row_range(r) {
            Some((_, first, last)) => last < first,
            None => false,
        }
    }

    /// The first of the first `n` rows with an inverted range.
    pub open spec fn first_inverted(self, n: int) -> Option<int>
        decreases n,
    {
        if n <= 0 {
            None
        } else {
            match self.first_inverted(n - 1) {
                Some(r) => Some(r),
                None => if self.inverted(n - 1) {
                    Some(n - 1)
                } else {
                    None
                },
            }
        }
    }
}

/// The rows that row `r` becomes: one for each number of its range, with
/// the designator of that number in the reference columns; the row itself
/// where its key writes no range.
pub open spec fn expansion(t: Table, r: int) -> Seq<Seq<Seq<char>>> {
    match t.row_range(r) {
        Some((prefix, first, last)) => Seq::new(
            (last - first + 1) as nat,
            |k: int|
                with_reference(
                    t.rows[r],
                    t.indices(role_ref()),
                    prefix + decimal((first + k) as nat),
                ),
        ),
        None => seq![t.rows[r]],
    }
}

/// The expansions of the first `n` rows, one after the other.
pub open spec fn expanded_rows(t: Table, n: int) -> Seq<Seq<Seq<char>>>
    decreases n,
{
    if n <= 0 {
        Seq::empty()
    } else {
        expanded_rows(t, n - 1) + expansion(t, n - 1)
    }
}

/// What is said of a range that ends before it starts.
pub open spec fn inverted_message(key: Seq<char>) -> Seq<char> {
    "Refの範囲指定が不正です: "@ + key
}

/// Expands the reference ranges of a table: a row whose key writes a range
/// such as `C1-C5` becomes one row for each designator of the range. The
/// rows are numbered from 1 and the result carries no findings. A range
/// that ends before it starts is an error, and the first such row is named
/// by its key.
pub fn expand_reference(parse: &ParseResult) -> (r: Result<ParseResult, AppError>)
    ensures
        match r {
            Ok(x) => parse@.first_inverted(parse@.rows.len() as int) is None && x@ == with_rows(
                parse@,
                expanded_rows(parse@, parse@.rows.len() as int),
            ),
            Err(e) => parse@.first_inverted(parse@.rows.len() as int) is Some && e.message@
                == inverted_message(
                parse@.key(parse@.first_inverted(parse@.rows.len() as int)->0),
            ),
        },
{
    let ghost t = parse@;
    let cols = parse.get_column_indices("ref");
    let mut rows: Vec<Vec<String>> = Vec::new();
    proof {
        assert(grid(rows@) =~= expanded_rows(t, 0));
    }
    let mut r: usize = 0;
    while r < parse.rows.len()
        invariant
            r <= parse.rows.len(),
            t == parse@,
            t.rows.len() == parse.rows.len(),
            cols@ == t.indices(role_ref()),
            t.first_inverted(r as int) is None,
            grid(rows@) == expanded_rows(t, r as int),
        decreases parse.rows.len() - r,
    {
        let key = parse.get_ref(r);
        let bare = strip_blanks(key.as_str());
        let row = &parse.rows[r];
        let ghost done = grid(rows@);
        proof {
            assert(t.rows[r as int] == views(row@));
        }
        match parse_reference_range(bare.as_str()) {
            Some((prefix, first, last)) => {
                if last < first {
                    let mut message = "Refの範囲指定が不正です: ".to_owned();
                    message.append(key.as_str());
                    proof {
                        lemma_first_inverted_found(t, r as int, t.rows.len() as int);
                    }
                    return Err(AppError::new(message.as_str()));
                }
                let ghost want = expansion(t, r as int);
                let mut k: u64 = 0;
                let count: u64 = (last - first) as u64 + 1;
                while k < count
                    invariant
                        k <= count,
                        count == last - first + 1,
                        first <= last,
                        want == expansion(t, r as int),
                        want.len() == count,
                        t.rows[r as int] == views(row@),
                        cols@ == t.indices(role_ref()),
                        t.row_range(r as int) == Some((prefix@, first, last)),
                        grid(rows@) == done + want.take(k as int),
                    decreases count - k,
                {
                    let number: usize = (first as u64 + k) as usize;
                    let mut name = prefix.clone();
                    name.append(decimal_string(number).as_str());
                    let ghost before = grid(rows@);
                    rows.push(set_reference(row, &cols, name.as_str()));
                    proof {
                        assert(grid(rows@) =~= before.push(want[k as int]));
                        assert(want.take(k + 1) =~= want.take(k as int).push(want[k as int]));
                        assert(before.push(want[k as int]) =~= done + want.take(k + 1));
                    }
                    k += 1;
                }
                proof {
                    assert(want.take(count as int) =~= want);
                }
            },
            None => {
                rows.push(copy_row(row));
                proof {
                    assert(grid(rows@) =~= done + seq![t.rows[r as int]]);
                }
            },
        }
        r += 1;
    }
    Ok(rebuild(parse, rows, true))
}

/// Once a row is the first with an inverted range among those up to it, it
/// is the first among any more.
pub proof fn lemma_first_inverted_found(t: Table, r: int, n: int)
    requires
        0 <= r < n,
        t.first_inverted(r) is None,
        t.inverted(r),
    ensures
        t.first_inverted(n) == Some(r),
    decreases n - r,
{
    if n > r + 1 {
        lemma_first_inverted_found(t, r, n - 1);
    }
}

/// The rows that row `r` becomes: one for each designator that its key
/// lists, with that designator in the reference columns; the row itself
/// where its key lists at most one.
pub open spec fn splitting(t: Table, r: int) -> Seq<Seq<Seq<char>>> {
    let names = listed(t.key(r));
    if names.len() <= 1 {
        seq![t.rows[r]]
    } else {
        Seq::new(
            names.len(),
            |k: int| with_reference(t.rows[r], t.indices(role_ref()), names[k]),
        )
    }
}

/// The splittings of the first `n` rows, one after the other.
pub open spec fn split_rows(t: Table, n: int) -> Seq<Seq<Seq<char>>>
    decreases n,
{
    if n <= 0 {
        Seq::empty()
    } else {
        split_rows(t, n - 1) + splitting(t, n - 1)
    }
}

/// Splits the reference lists of a table: a row whose key lists several
/// designators, as in `C1, C2, C3`, becomes one row for each of them. The
/// rows are numbered from 1 and the result carries no findings. Splitting
/// never fails.
pub fn split_reference_rows(parse: &ParseResult) -> (r: Result<ParseResult, AppError>)
    ensures
        r is Ok,
        r->Ok_0@ == with_rows(parse@, split_rows(parse@, parse@.rows.len() as int)),
{
    let ghost t = parse@;
    let cols = parse.get_column_indices("ref");
    let mut rows: Vec<Vec<String>> = Vec::new();
    proof {
        assert(grid(rows@) =~= split_rows(t, 0));
    }
    let mut r: usize = 0;
    while r < parse.rows.len()
        invariant
            r <= parse.rows.len(),
            t == parse@,
            t.rows.len() == parse.rows.len(),
            cols@ == t.indices(role_ref()),
            grid(rows@) == split_rows(t, r as int),
        decreases parse.rows.len() - r,
    {
        let key = parse.get_ref(r);
        let names = list_references(key.as_str());
        let row = &parse.rows[r];
        let ghost done = grid(rows@);
        let ghost want = splitting(t, r as int);
        proof {
            assert(t.rows[r as int] == views(row@));
        }
        if names.len() <= 1 {
            rows.push(copy_row(row));
            proof {
                assert(grid(rows@) =~= done + want);
            }
        } else {
            let mut k: usize = 0;
            while k < names.len()
                invariant
                    k <= names.len(),
                    names.len() > 1,
                    views(names@) == listed(t.key(r as int)),
                    want == splitting(t, r as int),
                    t.rows[r as int] == views(row@),
                    cols@ == t.indices(role_ref()),
                    grid(rows@) == done + want.take(k as int),
                decreases names.len() - k,
            {
                let ghost before = grid(rows@);
                proof {
                    assert(views(names@)[k as int] == names@[k as int]@);
                }
                rows.push(set_reference(row, &cols, names[k].as_str()));
                proof {
                    assert(grid(rows@) =~= before.push(want[k as int]));
                    assert(want.take(k + 1) =~= want.take(k as int).push(want[k as int]));
                    assert(before.push(want[k as int]) =~= done + want.take(k + 1));
                }
                k += 1;
            }
            proof {
                assert(want.take(names.len() as int) =~= want);
            }
        }
        r += 1;
    }
    Ok(rebuild(parse, rows, true))
}

} // verus!
