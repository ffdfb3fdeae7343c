//! Classification of freshly ingested rows: where the data starts, which
//! column carries which role, in which order the columns are shown, and
//! what is wrong with the rows.

use crate::text::{
    blank, char_is_alnum, char_is_digit, char_is_letter, char_is_space, chars_of, column_id,
    decimal, decimal_string, extend_unique, extended, find_invalid_char, first_invalid,
    is_ascii_alnum, is_ascii_digit, is_ascii_letter, is_blank, is_space, join, joined,
    lemma_column_id_reads_back, make_column_id, pieces, split_on, trim, trim_bounds, trimmed, views,
};
use crate::header::{
    is_manufacturer_header, is_part_no_header, is_ref_header, is_value_header,
    matches_manufacturer_header, matches_part_no_header, matches_ref_header, matches_value_header,
    normalize_header, normalized,
};
use crate::models::{
    column_views, copy_row, diagnostic_views, distinct_roles, grid, lemma_role_absent,
    lemma_role_names_differ, lemma_role_position_of, positions, role_ids, role_manufacturer,
    role_part_no, role_ref, role_value, role_views, AppError, ColumnMeta, Diagnostic, ParseError,
    ParseResult, RoleColumns, Table,
};
use vstd::hash_map::StringHashMap;
use vstd::string::StringExecFns;
use vstd::prelude::*;

verus! {

/// The two characters that separate the designators of a list.
pub open spec fn list_marks() -> Seq<char> {
    seq![',', ';']
}

/// The characters that may follow the first letter of a designator.
pub open spec fn is_designator_char(c: char) -> bool {
    is_ascii_alnum(c) || c == '-' || c == '_' || c == '/'
}

/// One reference designator: an ASCII letter, then designator characters,
/// at least one of them a digit.
pub open spec fn is_designator(t: Seq<char>) -> bool {
    &&& t.len() > 0
    &&& is_ascii_letter(t[0])
    &&& forall|i: int| 1 <= i < t.len() ==> is_designator_char(#[trigger] t[i])
    &&& exists|i: int| 1 <= i < t.len() && is_ascii_digit(#[trigger] t[i])
}

/// The shape of a reference value: a list of designators, cut by `,` or
/// `;`. Empty pieces are passed over; at least one piece is not empty.
pub open spec fn reference_shaped(value: Seq<char>) -> bool {
    let parts = pieces(value, list_marks());
    &&& forall|k: int|
        0 <= k < parts.len() ==> is_blank(#[trigger] parts[k]) || is_designator(trimmed(parts[k]))
    &&& exists|k: int| 0 <= k < parts.len() && !is_blank(#[trigger] parts[k])
}

/// The characters of a part number.
pub open spec fn is_part_char(c: char) -> bool {
    is_ascii_alnum(c) || c == '-' || c == '_' || c == '/' || c == '.'
}

/// The shape of a part number: part-number characters only, among them a
/// letter and a digit.
pub open spec fn part_number_shaped(value: Seq<char>) -> bool {
    &&& forall|i: int| 0 <= i < value.len() ==> is_part_char(#[trigger] value[i])
    &&& exists|i: int| 0 <= i < value.len() && is_ascii_letter(#[trigger] value[i])
    &&& exists|i: int| 0 <= i < value.len() && is_ascii_digit(#[trigger] value[i])
}

/// How many characters of `s` are of the kind `kind`.
pub open spec fn count_of(s: Seq<char>, kind: spec_fn(char) -> bool) -> nat
    decreases s.len(),
{
    if s.len() == 0 {
        0
    } else {
        count_of(s.take(s.len() - 1), kind) + if kind(s[s.len() - 1]) {
            1nat
        } else {
            0nat
        }
    }
}

/// The shape of a manufacturer name: not a part number, with a letter, and
/// with a space, or no digit, or no more digits than letters.
pub open spec fn manufacturer_shaped(value: Seq<char>) -> bool {
    let letters = count_of(value, |c: char| is_ascii_letter(c));
    let digits = count_of(value, |c: char| is_ascii_digit(c));
    let spaces = count_of(value, |c: char| is_space(c));
    &&& !part_number_shaped(value)
    &&& letters > 0
    &&& (spaces > 0 || digits == 0 || letters >= digits)
}

/// Decides whether `v[from..to]` is one reference designator.
fn is_designator_at(v: &Vec<char>, from: usize, to: usize) -> (r: bool)
    requires
        from <= to <= v.len(),
    ensures
        r == is_designator(v@.subrange(from as int, to as int)),
{
    let ghost t = v@.subrange(from as int, to as int);
    if from == to {
        return false;
    }
    if !char_is_letter(v[from]) {
        proof {
            assert(t[0] == v@[from as int]);
        }
        return false;
    }
    let mut has_digit: bool = false;
    let mut i: usize = from + 1;
    while i < to
        invariant
            from < i <= to <= v.len(),
            t == v@.subrange(from as int, to as int),
            forall|k: int| 1 <= k < i - from ==> is_designator_char(#[trigger] t[k]),
            has_digit == (exists|k: int| 1 <= k < i - from && is_ascii_digit(#[trigger] t[k])),
        decreases to - i,
    {
        let c = v[i];
        proof {
            assert(t[i - from] == c);
        }
        if char_is_digit(c) {
            has_digit = true;
        }
        if !(char_is_alnum(c) || c == '-' || c == '_' || c == '/') {
            return false;
        }
        i += 1;
    }
    proof {
        assert(t[0] == v@[from as int]);
    }
    has_digit
}

/// Decides whether a trimmed value has the shape of a reference.
pub fn looks_like_reference(value: &str) -> (r: bool)
    ensures
        r == reference_shaped(value@),
{
    let v = chars_of(value);
    let marks = chars_of(",;");
    proof {
        reveal_strlit(",;");
        assert(marks@ =~= list_marks());
    }
    let parts = split_on(&v, &marks);
    let ghost sp = pieces(v@, list_marks());
    let mut matched_any: bool = false;
    let mut k: usize = 0;
    while k < parts.len()
        invariant
            k <= parts.len(),
            sp == pieces(value@, list_marks()),
            parts@.len() == sp.len(),
            forall|x: int| 0 <= x < parts@.len() ==> (#[trigger] parts@[x])@ == sp[x],
            forall|x: int|
                0 <= x < k ==> is_blank(#[trigger] sp[x]) || is_designator(trimmed(sp[x])),
            matched_any == (exists|x: int| 0 <= x < k && !is_blank(#[trigger] sp[x])),
        decreases parts.len() - k,
    {
        let (a, b) = trim_bounds(&parts[k]);
        proof {
            assert(parts@[k as int]@ == sp[k as int]);
        }
        if a < b {
            if !is_designator_at(&parts[k], a, b) {
                return false;
            }
            matched_any = true;
        }
        k += 1;
    }
    matched_any
}

/// Decides whether a trimmed value has the shape of a part number.
pub fn looks_like_part_number(value: &str) -> (r: bool)
    ensures
        r == part_number_shaped(value@),
{
    let mut all_fit: bool = true;
    let mut has_letter: bool = false;
    let mut has_digit: bool = false;
    for c in it: value.chars()
        invariant
            it.seq() == value@,
            all_fit == (forall|i: int| 0 <= i < it.index() ==> is_part_char(#[trigger] value@[i])),
            has_letter == (exists|i: int|
                0 <= i < it.index() && is_ascii_letter(#[trigger] value@[i])),
            has_digit == (exists|i: int|
                0 <= i < it.index() && is_ascii_digit(#[trigger] value@[i])),
    {
        if char_is_digit(c) {
            has_digit = true;
        } else if char_is_letter(c) {
            has_letter = true;
        } else if !(c == '-' || c == '_' || c == '/' || c == '.') {
            all_fit = false;
        }
    }
    all_fit && has_letter && has_digit
}

/// Decides whether a trimmed value has the shape of a manufacturer name.
pub fn looks_like_manufacturer(value: &str) -> (r: bool)
    ensures
        r == manufacturer_shaped(value@),
{
    if looks_like_part_number(value) {
        return false;
    }
    let v = chars_of(value);
    let ghost letter = |c: char| is_ascii_letter(c);
    let ghost digit = |c: char| is_ascii_digit(c);
    let ghost space = |c: char| is_space(c);
    let mut letters: usize = 0;
    let mut digits: usize = 0;
    let mut spaces: usize = 0;
    let mut i: usize = 0;
    while i < v.len()
        invariant
            i <= v.len(),
            letter == (|c: char| is_ascii_letter(c)),
            digit == (|c: char| is_ascii_digit(c)),
            space == (|c: char| is_space(c)),
            letters == count_of(v@.take(i as int), letter),
            digits == count_of(v@.take(i as int), digit),
            spaces == count_of(v@.take(i as int), space),
            letters <= i,
            digits <= i,
            spaces <= i,
        decreases v.len() - i,
    {
        proof {
            let next = v@.take(i + 1);
            assert(next.take(next.len() - 1) =~= v@.take(i as int));
        }
        let c = v[i];
        if char_is_letter(c) {
            letters += 1;
        } else if char_is_digit(c) {
            digits += 1;
        } else if char_is_space(c) {
            spaces += 1;
        }
        i += 1;
    }
    proof {
        assert(v@.take(v.len() as int) =~= v@);
    }
    letters > 0 && (spaces > 0 || digits == 0 || letters >= digits)
}

/// A row is blank when every cell of it is.
pub open spec fn row_is_blank(row: Seq<Seq<char>>) -> bool {
    forall|c: int| 0 <= c < row.len() ==> is_blank(#[trigger] row[c])
}

/// A row holds data when one of its cells, trimmed, has the shape of a
/// reference.
pub open spec fn row_holds_data(row: Seq<Seq<char>>) -> bool {
    exists|c: int| 0 <= c < row.len() && reference_shaped(trimmed(#[trigger] row[c]))
}

/// Decides whether every cell of a row is blank.
pub fn is_blank_row(row: &Vec<String>) -> (r: bool)
    ensures
        r == row_is_blank(views(row@)),
{
    let mut c: usize = 0;
    while c < row.len()
        invariant
            c <= row.len(),
            forall|k: int| 0 <= k < c ==> is_blank(#[trigger] views(row@)[k]),
        decreases row.len() - c,
    {
        if !blank(row[c].as_str()) {
            proof {
                assert(!is_blank(views(row@)[c as int]));
            }
            return false;
        }
        c += 1;
    }
    true
}

/// Decides whether a row holds data.
pub fn is_data_row(row: &Vec<String>) -> (r: bool)
    ensures
        r == row_holds_data(views(row@)),
{
    let mut c: usize = 0;
    while c < row.len()
        invariant
            c <= row.len(),
            forall|k: int| 0 <= k < c ==> !reference_shaped(trimmed(#[trigger] views(row@)[k])),
        decreases row.len() - c,
    {
        let cell = trim(row[c].as_str());
        if looks_like_reference(cell.as_str()) {
            proof {
                assert(reference_shaped(trimmed(views(row@)[c as int])));
            }
            return true;
        }
        c += 1;
    }
    false
}

/// The four roles that the classifier looks for.
#[derive(Clone, Copy, Debug, PartialEq, Eq, Structural)]
pub enum Role {
    Reference,
    PartNo,
    Manufacturer,
    Value,
}

/// The first row at or after `i` that is not blank, or the number of rows.
pub open spec fn skip_blank_rows(raw: Seq<Seq<Seq<char>>>, i: int) -> int
    decreases raw.len() - i,
{
    if 0 <= i < raw.len() && row_is_blank(raw[i]) {
        skip_blank_rows(raw, i + 1)
    } else {
        i
    }
}

/// The end of the last row before `j` that is not blank, or zero.
pub open spec fn back_blank_rows(raw: Seq<Seq<Seq<char>>>, j: int) -> int
    decreases j,
{
    if 0 < j <= raw.len() && row_is_blank(raw[j - 1]) {
        back_blank_rows(raw, j - 1)
    } else {
        j
    }
}

/// The search for the first row that holds something ends within the
/// rows, at such a row if there is one.
pub proof fn lemma_skip_blank_rows(raw: Seq<Seq<Seq<char>>>, i: int)
    requires
        0 <= i <= raw.len(),
    ensures
        i <= skip_blank_rows(raw, i) <= raw.len(),
        skip_blank_rows(raw, i) < raw.len() ==> !row_is_blank(raw[skip_blank_rows(raw, i)]),
    decreases raw.len() - i,
{
    if i < raw.len() && row_is_blank(raw[i]) {
        lemma_skip_blank_rows(raw, i + 1);
    }
}

/// The search for the end of the content does not go back past a row
/// that holds something.
pub proof fn lemma_back_blank_rows(raw: Seq<Seq<Seq<char>>>, j: int, floor: int)
    requires
        0 <= floor < j <= raw.len(),
        !row_is_blank(raw[floor]),
    ensures
        floor < back_blank_rows(raw, j) <= j,
    decreases j,
{
    if row_is_blank(raw[j - 1]) {
        lemma_back_blank_rows(raw, j - 1, floor);
    }
}

/// Where the rows that count begin: after the leading blank rows.
pub open spec fn content_start(raw: Seq<Seq<Seq<char>>>) -> int {
    skip_blank_rows(raw, 0)
}

/// Where the rows that count end: before the trailing blank rows.
pub open spec fn content_end(raw: Seq<Seq<Seq<char>>>) -> int {
    back_blank_rows(raw, raw.len() as int)
}

/// Whether the input has a row that is not blank.
pub open spec fn has_content(raw: Seq<Seq<Seq<char>>>) -> bool {
    content_start(raw) < raw.len()
}

/// Whether the first row that counts is a header.
pub open spec fn has_header(raw: Seq<Seq<Seq<char>>>) -> bool {
    row_can_head(raw[content_start(raw)])
}

/// Where the data begins: at the first row that counts, or after it when
/// that row is a header.
pub open spec fn data_start(raw: Seq<Seq<Seq<char>>>) -> int {
    if has_header(raw) {
        content_start(raw) + 1
    } else {
        content_start(raw)
    }
}

/// The header row; a row without cells where the input has no header.
pub open spec fn header_of(raw: Seq<Seq<Seq<char>>>) -> Seq<Seq<char>> {
    if has_header(raw) {
        raw[content_start(raw)]
    } else {
        Seq::empty()
    }
}

/// The data rows, blank ones in their midst included.
pub open spec fn data_of(raw: Seq<Seq<Seq<char>>>) -> Seq<Seq<Seq<char>>> {
    raw.subrange(data_start(raw), content_end(raw))
}

/// The length of the longest of the first `n` rows.
pub open spec fn longest(rows: Seq<Seq<Seq<char>>>, n: int) -> nat
    decreases n,
{
    if n <= 0 {
        0
    } else {
        let before = longest(rows, n - 1);
        if rows[n - 1].len() > before {
            rows[n - 1].len()
        } else {
            before
        }
    }
}

/// The number of columns: the length of the longest row, header included.
pub open spec fn width_of(header: Seq<Seq<char>>, data: Seq<Seq<Seq<char>>>) -> nat {
    let widest = longest(data, data.len() as int);
    if header.len() > widest {
        header.len()
    } else {
        widest
    }
}

/// The positions below `width` that `fits` accepts, ascending.
pub open spec fn chosen(width: int, fits: spec_fn(int) -> bool) -> Seq<usize>
    decreases width,
{
    if width <= 0 {
        Seq::empty()
    } else {
        let before = chosen(width - 1, fits);
        if fits(width - 1) {
            before.push((width - 1) as usize)
        } else {
            before
        }
    }
}

/// Whether a header cell names `role`.
pub open spec fn header_names(cell: Seq<char>, role: Role) -> bool {
    let n = normalized(cell);
    match role {
        Role::Reference => is_ref_header(n),
        Role::PartNo => is_part_no_header(n),
        Role::Manufacturer => is_manufacturer_header(n),
        Role::Value => is_value_header(n),
    }
}

/// Whether a header cell names one of the roles.
pub open spec fn names_a_role(cell: Seq<char>) -> bool {
    ||| header_names(cell, Role::Reference)
    ||| header_names(cell, Role::PartNo)
    ||| header_names(cell, Role::Manufacturer)
    ||| header_names(cell, Role::Value)
}

/// Whether a cell speaks against its row being a header: it has the shape
/// of a reference and names no role.
pub open spec fn cell_is_data(cell: Seq<char>) -> bool {
    reference_shaped(trimmed(cell)) && !names_a_role(cell)
}

/// Whether a row can be a header: it is not blank, and no cell of it
/// speaks against it. A cell such as `Ref1` has the shape of a reference
/// and still names one.
pub open spec fn row_can_head(row: Seq<Seq<char>>) -> bool {
    !row_is_blank(row) && forall|c: int| 0 <= c < row.len() ==> !cell_is_data(#[trigger] row[c])
}

/// The columns whose header names `role`.
pub open spec fn header_candidates(header: Seq<Seq<char>>, width: int, role: Role) -> Seq<usize> {
    chosen(width, |c: int| 0 <= c < header.len() && header_names(header[c], role))
}

/// Whether a trimmed value has the shape that `role` asks for. No shape
/// speaks for a value.
pub open spec fn shaped(value: Seq<char>, role: Role) -> bool {
    match role {
        Role::Reference => reference_shaped(value),
        Role::PartNo => part_number_shaped(value),
        Role::Manufacturer => manufacturer_shaped(value),
        Role::Value => false,
    }
}

/// How many of the first `n` rows hold something in column `c`.
pub open spec fn filled(rows: Seq<Seq<Seq<char>>>, c: int, n: int) -> nat
    decreases n,
{
    if n <= 0 {
        0
    } else {
        filled(rows, c, n - 1) + if c < rows[n - 1].len() && !is_blank(rows[n - 1][c]) {
            1nat
        } else {
            0nat
        }
    }
}

/// How many of the first `n` rows hold in column `c` something of the shape
/// that `role` asks for.
pub open spec fn alike(rows: Seq<Seq<Seq<char>>>, c: int, role: Role, n: int) -> nat
    decreases n,
{
    if n <= 0 {
        0
    } else {
        alike(rows, c, role, n - 1) + if c < rows[n - 1].len() && !is_blank(rows[n - 1][c])
            && shaped(trimmed(rows[n - 1][c]), role) {
            1nat
        } else {
            0nat
        }
    }
}

/// How many rows are looked at to judge a column by its content.
pub open spec fn sample_size(rows: Seq<Seq<Seq<char>>>) -> int {
    if rows.len() > 50 {
        50
    } else {
        rows.len() as int
    }
}

/// The columns of which more than half of the sampled cells that hold
/// something have the shape that `role` asks for.
pub open spec fn content_candidates(rows: Seq<Seq<Seq<char>>>, width: int, role: Role) -> Seq<
    usize,
> {
    chosen(
        width,
        |c: int|
            2 * alike(rows, c, role, sample_size(rows)) > filled(rows, c, sample_size(rows)),
    )
}

/// The columns that speak for each role.
pub struct ColumnAnalysis {
    pub reference_candidates: Vec<usize>,
    pub part_candidates: Vec<usize>,
    pub manufacturer_candidates: Vec<usize>,
    pub value_candidates: Vec<usize>,
}

/// The candidates of a table for `role`: by the header where there is one,
/// by the content of the columns where there is none.
pub open spec fn candidates(
    headed: bool,
    header: Seq<Seq<char>>,
    data: Seq<Seq<Seq<char>>>,
    width: int,
    role: Role,
) -> Seq<usize> {
    if headed {
        header_candidates(header, width, role)
    } else {
        content_candidates(data, width, role)
    }
}

impl ColumnAnalysis {
    /// The candidates found for `role`.
    pub open spec fn of(self, role: Role) -> Seq<usize> {
        match role {
            Role::Reference => self.reference_candidates@,
            Role::PartNo => self.part_candidates@,
            Role::Manufacturer => self.manufacturer_candidates@,
            Role::Value => self.value_candidates@,
        }
    }
}

/// Decides whether a header cell names `role`.
fn header_matches(cell: &str, role: Role) -> (r: bool)
    ensures
        r == header_names(cell@, role),
{
    let n = normalize_header(cell);
    match role {
        Role::Reference => matches_ref_header(n.as_str()),
        Role::PartNo => matches_part_no_header(n.as_str()),
        Role::Manufacturer => matches_manufacturer_header(n.as_str()),
        Role::Value => matches_value_header(n.as_str()),
    }
}

/// Decides whether a row can be a header.
pub fn is_potential_header(row: &Vec<String>) -> (r: bool)
    ensures
        r == row_can_head(views(row@)),
{
    if is_blank_row(row) {
        return false;
    }
    let mut c: usize = 0;
    while c < row.len()
        invariant
            c <= row.len(),
            forall|k: int| 0 <= k < c ==> !cell_is_data(#[trigger] views(row@)[k]),
        decreases row.len() - c,
    {
        let cell = trim(row[c].as_str());
        if looks_like_reference(cell.as_str()) {
            let raw_cell = row[c].as_str();
            let named = header_matches(raw_cell, Role::Reference) || header_matches(
                raw_cell,
                Role::PartNo,
            ) || header_matches(raw_cell, Role::Manufacturer) || header_matches(
                raw_cell,
                Role::Value,
            );
            if !named {
                proof {
                    assert(cell_is_data(views(row@)[c as int]));
                }
                return false;
            }
        }
        c += 1;
    }
    true
}

/// The columns whose header names `role`.
fn header_columns(header: &Vec<String>, max_columns: usize, role: Role) -> (r: Vec<usize>)
    ensures
        r@ == header_candidates(views(header@), max_columns as int, role),
{
    let ghost h = views(header@);
    let ghost fits = |c: int| 0 <= c < h.len() && header_names(h[c], role);
    let mut out: Vec<usize> = Vec::new();
    let mut c: usize = 0;
    while c < max_columns
        invariant
            c <= max_columns,
            h == views(header@),
            fits == (|c: int| 0 <= c < h.len() && header_names(h[c], role)),
            out@ == chosen(c as int, fits),
        decreases max_columns - c,
    {
        if c < header.len() && header_matches(header[c].as_str(), role) {
            out.push(c);
        }
        c += 1;
    }
    out
}

/// Finds, by the header, the columns that speak for each role.
pub fn match_headers(header: &Vec<String>, max_columns: usize) -> (r: ColumnAnalysis)
    ensures
        forall|role: Role| #[trigger]
            r.of(role) == header_candidates(views(header@), max_columns as int, role),
{
    ColumnAnalysis {
        reference_candidates: header_columns(header, max_columns, Role::Reference),
        part_candidates: header_columns(header, max_columns, Role::PartNo),
        manufacturer_candidates: header_columns(header, max_columns, Role::Manufacturer),
        value_candidates: header_columns(header, max_columns, Role::Value),
    }
}

/// Decides whether a trimmed value has the shape that `role` asks for.
fn has_shape(value: &str, role: Role) -> (r: bool)
    ensures
        r == shaped(value@, role),
{
    match role {
        Role::Reference => looks_like_reference(value),
        Role::PartNo => looks_like_part_number(value),
        Role::Manufacturer => looks_like_manufacturer(value),
        Role::Value => false,
    }
}

/// The columns whose sampled content speaks for `role`.
fn content_columns(rows: &Vec<Vec<String>>, max_columns: usize, role: Role) -> (r: Vec<usize>)
    ensures
        r@ == content_candidates(grid(rows@), max_columns as int, role),
{
    let ghost g = grid(rows@);
    let ghost fits = |c: int|
        2 * alike(g, c, role, sample_size(g)) > filled(g, c, sample_size(g));
    let sample: usize = if rows.len() > 50 {
        50
    } else {
        rows.len()
    };
    let mut out: Vec<usize> = Vec::new();
    let mut c: usize = 0;
    while c < max_columns
        invariant
            c <= max_columns,
            g == grid(rows@),
            sample == sample_size(g),
            sample <= rows.len(),
            sample <= 50,
            fits == (|c: int|
                2 * alike(g, c, role, sample_size(g)) > filled(g, c, sample_size(g))),
            out@ == chosen(c as int, fits),
        decreases max_columns - c,
    {
        let mut non_empty: usize = 0;
        let mut matching: usize = 0;
        let mut r: usize = 0;
        while r < sample
            invariant
                r <= sample <= rows.len(),
                sample <= 50,
                g == grid(rows@),
                non_empty == filled(g, c as int, r as int),
                matching == alike(g, c as int, role, r as int),
                non_empty <= r,
                matching <= r,
            decreases sample - r,
        {
            let row = &rows[r];
            proof {
                assert(g[r as int] == views(row@));
                if c < row.len() {
                    assert(g[r as int][c as int] == row@[c as int]@);
                }
            }
            if c < row.len() && !blank(row[c].as_str()) {
                non_empty += 1;
                let cell = trim(row[c].as_str());
                if has_shape(cell.as_str(), role) {
                    matching += 1;
                }
            }
            r += 1;
        }
        if matching * 2 > non_empty {
            out.push(c);
        }
        c += 1;
    }
    out
}

/// Finds, by the content of the first rows, the columns that speak for
/// each role.
pub fn analyze_columns(rows: &Vec<Vec<String>>, max_columns: usize) -> (r: ColumnAnalysis)
    ensures
        forall|role: Role| #[trigger]
            r.of(role) == content_candidates(grid(rows@), max_columns as int, role),
{
    ColumnAnalysis {
        reference_candidates: content_columns(rows, max_columns, Role::Reference),
        part_candidates: content_columns(rows, max_columns, Role::PartNo),
        manufacturer_candidates: content_columns(rows, max_columns, Role::Manufacturer),
        value_candidates: content_columns(rows, max_columns, Role::Value),
    }
}

/// A finding that warns.
pub open spec fn warning(
    message: Seq<char>,
    row: Option<usize>,
    column: Option<usize>,
) -> Diagnostic {
    Diagnostic { message, row, column, severity: "warning"@ }
}

/// A finding that reports an error.
pub open spec fn failure(
    message: Seq<char>,
    row: Option<usize>,
    column: Option<usize>,
) -> Diagnostic {
    Diagnostic { message, row, column, severity: "error"@ }
}

/// Appends a warning to the findings.
pub fn push_warning(
    diagnostics: &mut Vec<ParseError>,
    message: String,
    row: Option<usize>,
    column: Option<usize>,
)
    ensures
        diagnostic_views(final(diagnostics)@) == diagnostic_views(old(diagnostics)@).push(
            warning(message@, row, column),
        ),
{
    let ghost before = diagnostic_views(diagnostics@);
    diagnostics.push(ParseError { message, row, column, severity: "warning".to_owned() });
    proof {
        assert(diagnostic_views(diagnostics@) =~= before.push(warning(message@, row, column)));
    }
}

/// Appends an error to the findings.
pub fn push_error(
    diagnostics: &mut Vec<ParseError>,
    message: String,
    row: Option<usize>,
    column: Option<usize>,
)
    ensures
        diagnostic_views(final(diagnostics)@) == diagnostic_views(old(diagnostics)@).push(
            failure(message@, row, column),
        ),
{
    let ghost before = diagnostic_views(diagnostics@);
    diagnostics.push(ParseError { message, row, column, severity: "error".to_owned() });
    proof {
        assert(diagnostic_views(diagnostics@) =~= before.push(failure(message@, row, column)));
    }
}

/// The name of a role in the role map.
pub open spec fn role_name(role: Role) -> Seq<char> {
    match role {
        Role::Reference => role_ref(),
        Role::PartNo => role_part_no(),
        Role::Manufacturer => role_manufacturer(),
        Role::Value => role_value(),
    }
}

/// The word for a role in messages.
pub open spec fn role_label(role: Role) -> Seq<char> {
    match role {
        Role::Reference => "Reference"@,
        Role::PartNo => "部品型番"@,
        Role::Manufacturer => "メーカー"@,
        Role::Value => "Value"@,
    }
}

/// The title of the column at position `c` where its header gives none.
pub open spec fn column_title(c: int) -> Seq<char> {
    "Column "@ + decimal((c + 1) as nat)
}

/// The columns that a role gets: its candidate, if it has exactly one.
/// The reference alone may span several columns, where a header names each
/// of them; nothing is guessed from shapes that several columns share.
pub open spec fn assigned(role: Role, headed: bool, found: Seq<usize>) -> Seq<usize> {
    if found.len() == 1 || (role == Role::Reference && headed) {
        found
    } else {
        Seq::empty()
    }
}

/// The ids of the columns at the positions `cols`.
pub open spec fn ids_of(cols: Seq<usize>) -> Seq<Seq<char>> {
    Seq::new(cols.len(), |i: int| column_id(cols[i] as nat))
}

/// The titles of the columns at the positions `cols`.
pub open spec fn titles_of(cols: Seq<usize>) -> Seq<Seq<char>> {
    Seq::new(cols.len(), |i: int| column_title(cols[i] as int))
}

/// The role map after `role` got `cols`: a role without columns gets no
/// entry.
pub open spec fn with_role(
    roles: Seq<(Seq<char>, Seq<Seq<char>>)>,
    role: Role,
    cols: Seq<usize>,
) -> Seq<(Seq<char>, Seq<Seq<char>>)> {
    if cols.len() > 0 {
        roles.push((role_name(role), ids_of(cols)))
    } else {
        roles
    }
}

/// What is said of a role that no column speaks for.
pub open spec fn unresolved_message(role: Role) -> Seq<char> {
    role_label(role) + "列を自動判定できませんでした。編集モードで指定してください。"@
}

/// What is said of a role that several columns speak for.
pub open spec fn ambiguous_message(role: Role, found: Seq<usize>) -> Seq<char> {
    role_label(role) + "列の候補が複数見つかりました（"@ + joined(titles_of(found), ", "@)
        + "）。編集モードで指定してください。"@
}

/// The findings after the assignment of `role`: a role left without
/// columns is warned of, with its candidates where it had several.
pub open spec fn with_role_warning(
    findings: Seq<Diagnostic>,
    role: Role,
    headed: bool,
    found: Seq<usize>,
) -> Seq<Diagnostic> {
    if assigned(role, headed, found).len() > 0 {
        findings
    } else if found.len() == 0 {
        findings.push(warning(unresolved_message(role), None, None))
    } else {
        findings.push(warning(ambiguous_message(role, found), None, None))
    }
}

/// The name of a role as the role map spells it.
fn role_key(role: Role) -> (r: &'static str)
    ensures
        r@ == role_name(role),
{
    match role {
        Role::Reference => "ref",
        Role::PartNo => "part_no",
        Role::Manufacturer => "manufacturer",
        Role::Value => "value",
    }
}

/// The word for a role in messages.
fn label_of(role: Role) -> (r: &'static str)
    ensures
        r@ == role_label(role),
{
    match role {
        Role::Reference => "Reference",
        Role::PartNo => "部品型番",
        Role::Manufacturer => "メーカー",
        Role::Value => "Value",
    }
}

/// Writes the title of the column at position `c`.
fn make_column_title(c: usize) -> (r: String)
    requires
        c < usize::MAX,
    ensures
        r@ == column_title(c as int),
{
    let mut out = "Column ".to_owned();
    out.append(decimal_string(c + 1).as_str());
    out
}

/// Writes the ids of the columns at the positions `cols`.
fn make_ids(cols: &Vec<usize>) -> (r: Vec<String>)
    ensures
        views(r@) == ids_of(cols@),
{
    let mut out: Vec<String> = Vec::new();
    let mut i: usize = 0;
    while i < cols.len()
        invariant
            i <= cols.len(),
            out.len() == i,
            forall|k: int| 0 <= k < i ==> (#[trigger] out@[k])@ == column_id(cols@[k] as nat),
        decreases cols.len() - i,
    {
        out.push(make_column_id(cols[i]));
        i += 1;
    }
    proof {
        assert(views(out@) =~= ids_of(cols@));
    }
    out
}

/// Gives `role` its columns, or warns that it stays without.
fn assign_role(
    role: Role,
    headed: bool,
    candidates: &Vec<usize>,
    column_roles: &mut Vec<RoleColumns>,
    diagnostics: &mut Vec<ParseError>,
    priority_order: &mut Vec<usize>,
) -> (r: Vec<usize>)
    requires
        forall|i: int| 0 <= i < candidates@.len() ==> #[trigger] candidates@[i] < usize::MAX,
    ensures
        r@ == assigned(role, headed, candidates@),
        role_views(final(column_roles)@) == with_role(role_views(old(column_roles)@), role, r@),
        diagnostic_views(final(diagnostics)@) == with_role_warning(
            diagnostic_views(old(diagnostics)@),
            role,
            headed,
            candidates@,
        ),
        final(priority_order)@ == old(priority_order)@ + r@,
{
    let many_allowed = match role {
        Role::Reference => headed,
        _ => false,
    };
    if candidates.len() == 0 {
        let mut message = label_of(role).to_owned();
        message.append("列を自動判定できませんでした。編集モードで指定してください。");
        push_warning(diagnostics, message, None, None);
        proof {
            assert(priority_order@ + Seq::<usize>::empty() =~= priority_order@);
        }
        Vec::new()
    } else if candidates.len() == 1 || many_allowed {
        let ghost before_roles = role_views(column_roles@);
        let ghost before_order = priority_order@;
        let ids = make_ids(candidates);
        column_roles.push(RoleColumns { role: role_key(role).to_owned(), column_ids: ids });
        let mut taken: Vec<usize> = Vec::new();
        let mut i: usize = 0;
        while i < candidates.len()
            invariant
                i <= candidates.len(),
                taken@ == candidates@.take(i as int),
                priority_order@ == before_order + candidates@.take(i as int),
            decreases candidates.len() - i,
        {
            taken.push(candidates[i]);
            priority_order.push(candidates[i]);
            proof {
                assert(candidates@.take(i + 1) =~= candidates@.take(i as int).push(
                    candidates@[i as int],
                ));
                assert(before_order + candidates@.take(i + 1) =~= (before_order
                    + candidates@.take(i as int)).push(candidates@[i as int]));
            }
            i += 1;
        }
        proof {
            assert(candidates@.take(candidates.len() as int) =~= candidates@);
            assert(role_views(column_roles@) =~= before_roles.push(
                (role_name(role), ids_of(candidates@)),
            ));
        }
        taken
    } else {
        let mut titles: Vec<String> = Vec::new();
        let mut i: usize = 0;
        while i < candidates.len()
            invariant
                i <= candidates.len(),
                titles.len() == i,
                forall|k: int|
                    0 <= k < candidates@.len() ==> #[trigger] candidates@[k] < usize::MAX,
                forall|k: int|
                    0 <= k < i ==> (#[trigger] titles@[k])@ == column_title(candidates@[k] as int),
            decreases candidates.len() - i,
        {
            titles.push(make_column_title(candidates[i]));
            i += 1;
        }
        proof {
            assert(views(titles@) =~= titles_of(candidates@));
        }
        let mut message = label_of(role).to_owned();
        message.append("列の候補が複数見つかりました（");
        message.append(join(&titles, ", ").as_str());
        message.append("）。編集モードで指定してください。");
        push_warning(diagnostics, message, None, None);
        proof {
            assert(priority_order@ + Seq::<usize>::empty() =~= priority_order@);
        }
        Vec::new()
    }
}

/// Every chosen position lies below the width, and they ascend.
pub proof fn lemma_chosen_bounds(width: int, fits: spec_fn(int) -> bool)
    requires
        0 <= width <= usize::MAX,
    ensures
        forall|i: int|
            0 <= i < chosen(width, fits).len() ==> (#[trigger] chosen(width, fits)[i]) < width,
    decreases width,
{
    if width > 0 {
        lemma_chosen_bounds(width - 1, fits);
        let before = chosen(width - 1, fits);
        let now = chosen(width, fits);
        assert forall|i: int| 0 <= i < now.len() implies (#[trigger] now[i]) < width by {
            if i < before.len() {
                assert(now[i] == before[i]);
            }
        }
    }
}

/// The positions of all columns of a table of the given width.
pub open spec fn all_columns(width: int) -> Seq<usize> {
    Seq::new(width as nat, |c: int| c as usize)
}

/// The order in which the columns are shown: the columns with a role first,
/// as the roles were assigned, then the others as they stand; each once.
pub open spec fn column_order_of(priority: Seq<usize>, width: int) -> Seq<Seq<char>> {
    extended(extended(Seq::empty(), ids_of(priority)), ids_of(all_columns(width)))
}

/// Puts the columns in the order in which they are shown.
fn order_columns(priority: &Vec<usize>, max_columns: usize) -> (r: Vec<String>)
    ensures
        views(r@) == column_order_of(priority@, max_columns as int),
{
    let mut order: Vec<String> = Vec::new();
    proof {
        assert(views(order@) =~= Seq::<Seq<char>>::empty());
    }
    let first = make_ids(priority);
    extend_unique(&mut order, &first);
    let mut all: Vec<usize> = Vec::new();
    let mut c: usize = 0;
    while c < max_columns
        invariant
            c <= max_columns,
            all@ == all_columns(c as int),
        decreases max_columns - c,
    {
        all.push(c);
        proof {
            assert(all@ =~= all_columns(c + 1));
        }
        c += 1;
    }
    let rest = make_ids(&all);
    extend_unique(&mut order, &rest);
    order
}

/// The name of the column at position `c`: what the header says there,
/// trimmed, or the column's title where the header says nothing.
pub open spec fn header_name(header: Seq<Seq<char>>, c: int) -> Seq<char> {
    if 0 <= c < header.len() && !is_blank(header[c]) {
        trimmed(header[c])
    } else {
        column_title(c)
    }
}

/// The names of the columns.
pub open spec fn header_names_of(header: Seq<Seq<char>>, width: int) -> Seq<Seq<char>> {
    Seq::new(width as nat, |c: int| header_name(header, c))
}

/// The identities of the columns.
pub open spec fn columns_of(header: Seq<Seq<char>>, width: int) -> Seq<(Seq<char>, Seq<char>)> {
    Seq::new(width as nat, |c: int| (column_id(c as nat), header_name(header, c)))
}

/// Names the columns.
fn name_columns(header: &Vec<String>, max_columns: usize) -> (r: (Vec<String>, Vec<ColumnMeta>))
    ensures
        views(r.0@) == header_names_of(views(header@), max_columns as int),
        column_views(r.1@) == columns_of(views(header@), max_columns as int),
{
    let ghost h = views(header@);
    let mut headers: Vec<String> = Vec::new();
    let mut columns: Vec<ColumnMeta> = Vec::new();
    let mut c: usize = 0;
    while c < max_columns
        invariant
            c <= max_columns,
            h == views(header@),
            headers.len() == c,
            columns.len() == c,
            forall|k: int| 0 <= k < c ==> (#[trigger] headers@[k])@ == header_name(h, k),
            forall|k: int|
                0 <= k < c ==> (#[trigger] columns@[k]).id@ == column_id(k as nat)
                    && columns@[k].name@ == header_name(h, k),
        decreases max_columns - c,
    {
        let name = if c < header.len() && !blank(header[c].as_str()) {
            trim(header[c].as_str())
        } else {
            make_column_title(c)
        };
        headers.push(name.clone());
        columns.push(ColumnMeta { id: make_column_id(c), name });
        c += 1;
    }
    proof {
        assert(views(headers@) =~= header_names_of(h, max_columns as int));
        assert(column_views(columns@) =~= columns_of(h, max_columns as int));
    }
    (headers, columns)
}

/// The length of the longest row, header included.
fn widest(header: &Vec<String>, data: &Vec<Vec<String>>) -> (r: usize)
    ensures
        r == width_of(views(header@), grid(data@)),
{
    let ghost g = grid(data@);
    let mut best: usize = 0;
    let mut i: usize = 0;
    while i < data.len()
        invariant
            i <= data.len(),
            g == grid(data@),
            best == longest(g, i as int),
        decreases data.len() - i,
    {
        proof {
            assert(g[i as int].len() == data@[i as int]@.len());
        }
        if data[i].len() > best {
            best = data[i].len();
        }
        i += 1;
    }
    if header.len() > best {
        header.len()
    } else {
        best
    }
}

/// The bounds of the rows that count: without the blank rows before the
/// first and after the last row that holds something.
fn content_bounds(rows: &Vec<Vec<String>>) -> (r: (usize, usize))
    ensures
        r.0 == content_start(grid(rows@)),
        r.1 == content_end(grid(rows@)),
        r.0 <= rows.len(),
        r.1 <= rows.len(),
        r.0 < rows.len() ==> r.0 < r.1,
{
    let ghost g = grid(rows@);
    let n = rows.len();
    let mut a: usize = 0;
    while a < n && is_blank_row(&rows[a])
        invariant
            n == rows.len(),
            a <= n,
            g == grid(rows@),
            skip_blank_rows(g, a as int) == skip_blank_rows(g, 0),
        decreases n - a,
    {
        a += 1;
    }
    let mut b: usize = n;
    while b > 0 && is_blank_row(&rows[b - 1])
        invariant
            n == rows.len(),
            b <= n,
            g == grid(rows@),
            back_blank_rows(g, b as int) == back_blank_rows(g, n as int),
        decreases b,
    {
        b -= 1;
    }
    proof {
        lemma_skip_blank_rows(g, 0);
        if a < n {
            assert(g[a as int] == views(rows@[a as int]@));
            lemma_back_blank_rows(g, n as int, a as int);
        }
    }
    (a, b)
}

/// Tells where the data begins among the rows that count, which start at
/// `first`: one row later when the first row is a header, else there.
fn detect_data_start(rows: &Vec<Vec<String>>, first: usize) -> (r: usize)
    requires
        first < rows.len(),
    ensures
        r == if row_can_head(grid(rows@)[first as int]) {
            (first + 1) as usize
        } else {
            first
        },
        r <= rows.len(),
{
    proof {
        assert(grid(rows@)[first as int] == views(rows@[first as int]@));
    }
    if is_potential_header(&rows[first]) {
        first + 1
    } else {
        first
    }
}

/// Copies the rows `from..to`.
fn take_rows(rows: &Vec<Vec<String>>, from: usize, to: usize) -> (r: Vec<Vec<String>>)
    requires
        from <= to <= rows.len(),
    ensures
        grid(r@) == grid(rows@).subrange(from as int, to as int),
{
    let mut out: Vec<Vec<String>> = Vec::new();
    let mut i: usize = from;
    while i < to
        invariant
            from <= i <= to <= rows.len(),
            out.len() == i - from,
            forall|k: int| 0 <= k < i - from ==> (#[trigger] out@[k])@ == rows@[from + k]@,
        decreases to - i,
    {
        out.push(copy_row(&rows[i]));
        i += 1;
    }
    proof {
        assert(grid(out@) =~= grid(rows@).subrange(from as int, to as int));
    }
    out
}

/// The line numbers of `count` rows of which the first stands on line
/// `first_line`.
pub open spec fn line_numbers(first_line: int, count: int) -> Seq<usize> {
    Seq::new(count as nat, |i: int| (first_line + i) as usize)
}

/// Numbers `count` rows by the lines they came from, the first of them
/// from the line after `lines_before` others.
fn number_rows(lines_before: usize, count: usize) -> (r: Vec<usize>)
    requires
        lines_before + count <= usize::MAX,
    ensures
        r@ == line_numbers(lines_before + 1, count as int),
{
    let mut out: Vec<usize> = Vec::new();
    let mut i: usize = 0;
    while i < count
        invariant
            i <= count,
            lines_before + count <= usize::MAX,
            out@ == line_numbers(lines_before + 1, i as int),
        decreases count - i,
    {
        out.push(lines_before + i + 1);
        proof {
            assert(out@ =~= line_numbers(lines_before + 1, i + 1));
        }
        i += 1;
    }
    out
}

/// What is said of an invalid character.
pub open spec fn invalid_char_message(line: usize, c: int, ch: char) -> Seq<char> {
    decimal(line as nat) + "行目(列"@ + decimal((c + 1) as nat) + "): 無効な文字 '"@ + seq![ch]
        + "' を検出しました。"@
}

/// What is said of a row that ends before a column with a role.
pub open spec fn missing_message(line: usize, role: Role) -> Seq<char> {
    decimal(line as nat) + "行目: "@ + role_label(role) + "列のデータが不足しています。"@
}

/// What is said of a row without a key.
pub open spec fn empty_key_message(line: usize) -> Seq<char> {
    decimal(line as nat) + "行目: Referenceが空です。"@
}

/// What is said of a row whose key an earlier row has.
pub open spec fn duplicate_message(line: usize, key: Seq<char>) -> Seq<char> {
    decimal(line as nat) + "行目: Reference '"@ + key + "' が重複しています。"@
}

/// What is said of a row without a part number.
pub open spec fn empty_part_message(line: usize) -> Seq<char> {
    decimal(line as nat) + "行目: 部品型番が空です。編集モードで指定してください。"@
}

/// The warnings for the invalid characters in the first `n` cells of a row:
/// one for each cell that holds one, naming the first.
pub open spec fn char_findings(row: Seq<Seq<char>>, line: usize, n: int) -> Seq<Diagnostic>
    decreases n,
{
    if n <= 0 {
        Seq::empty()
    } else {
        let before = char_findings(row, line, n - 1);
        match first_invalid(row[n - 1]) {
            Some(ch) => before.push(
                warning(invalid_char_message(line, n - 1, ch), Some(line), Some((n - 1) as usize)),
            ),
            None => before,
        }
    }
}

/// The errors for those of the first `n` columns of a role that a row of
/// `row_len` cells does not reach.
pub open spec fn missing_findings(
    row_len: int,
    line: usize,
    role: Role,
    cols: Seq<usize>,
    n: int,
) -> Seq<Diagnostic>
    decreases n,
{
    if n <= 0 {
        Seq::empty()
    } else {
        let before = missing_findings(row_len, line, role, cols, n - 1);
        if cols[n - 1] >= row_len {
            before.push(failure(missing_message(line, role), Some(line), Some(cols[n - 1])))
        } else {
            before
        }
    }
}

/// The first of the columns, if there is one.
pub open spec fn first_of(cols: Seq<usize>) -> Option<usize> {
    if cols.len() > 0 {
        Some(cols[0])
    } else {
        None
    }
}

/// The warning for the key of row `r`, where the table has reference
/// columns: that it is empty, or that an earlier row has it.
pub open spec fn key_findings(t: Table, r: int, line: usize) -> Seq<Diagnostic> {
    let cols = t.indices(role_ref());
    if cols.len() == 0 {
        Seq::empty()
    } else if t.key(r).len() == 0 {
        seq![warning(empty_key_message(line), Some(line), first_of(cols))]
    } else if t.first_row(t.key(r), r) is Some {
        seq![warning(duplicate_message(line, t.key(r)), Some(line), first_of(cols))]
    } else {
        Seq::empty()
    }
}

/// The warning for a row without a part number, where the table has a
/// part-number column.
pub open spec fn part_findings(t: Table, r: int, line: usize) -> Seq<Diagnostic> {
    let cols = t.indices(role_part_no());
    if cols.len() > 0 && t.values(r, role_part_no()).len() == 0 {
        seq![warning(empty_part_message(line), Some(line), first_of(cols))]
    } else {
        Seq::empty()
    }
}

/// The errors for the columns of `role` that row `r` does not reach.
pub open spec fn missing_of(t: Table, r: int, line: usize, role: Role) -> Seq<Diagnostic> {
    let cols = t.indices(role_name(role));
    missing_findings(t.rows[r].len() as int, line, role, cols, cols.len() as int)
}

/// Everything found in row `r`, which came from line `line`.
pub open spec fn row_findings(t: Table, r: int, line: usize) -> Seq<Diagnostic> {
    char_findings(t.rows[r], line, t.rows[r].len() as int) + missing_of(
        t,
        r,
        line,
        Role::Reference,
    ) + missing_of(t, r, line, Role::PartNo) + missing_of(t, r, line, Role::Manufacturer)
        + missing_of(t, r, line, Role::Value) + key_findings(t, r, line) + part_findings(
        t,
        r,
        line,
    )
}

/// Everything found in the first `n` rows, of which the first came from
/// line `first_line`.
pub open spec fn findings(t: Table, first_line: int, n: int) -> Seq<Diagnostic>
    decreases n,
{
    if n <= 0 {
        Seq::empty()
    } else {
        findings(t, first_line, n - 1) + row_findings(t, n - 1, (first_line + n - 1) as usize)
    }
}

/// Warns of the invalid characters in the cells of a row.
fn check_cells(row: &Vec<String>, line: usize, diagnostics: &mut Vec<ParseError>)
    ensures
        diagnostic_views(final(diagnostics)@) == diagnostic_views(old(diagnostics)@)
            + char_findings(views(row@), line, row.len() as int),
{
    let ghost start = diagnostic_views(diagnostics@);
    let ghost srow = views(row@);
    proof {
        assert(start + char_findings(srow, line, 0) =~= start);
    }
    let mut c: usize = 0;
    while c < row.len()
        invariant
            c <= row.len(),
            srow == views(row@),
            diagnostic_views(diagnostics@) == start + char_findings(srow, line, c as int),
        decreases row.len() - c,
    {
        let ghost before = char_findings(srow, line, c as int);
        proof {
            assert(srow[c as int] == row@[c as int]@);
        }
        match find_invalid_char(row[c].as_str()) {
            Some(ch) => {
                let mut message = decimal_string(line);
                message.append("行目(列");
                message.append(decimal_string(c + 1).as_str());
                message.append("): 無効な文字 '");
                message.push(ch);
                message.append("' を検出しました。");
                proof {
                    assert(message@ =~= invalid_char_message(line, c as int, ch));
                }
                push_warning(diagnostics, message, Some(line), Some(c));
                proof {
                    let added = warning(
                        invalid_char_message(line, c as int, ch),
                        Some(line),
                        Some(c),
                    );
                    assert((start + before).push(added) =~= start + before.push(added));
                }
            },
            None => {},
        }
        c += 1;
    }
}

/// Reports the columns of `role` that a row of `row_len` cells does not
/// reach.
fn check_missing(
    row_len: usize,
    line: usize,
    role: Role,
    cols: &Vec<usize>,
    diagnostics: &mut Vec<ParseError>,
)
    ensures
        diagnostic_views(final(diagnostics)@) == diagnostic_views(old(diagnostics)@)
            + missing_findings(row_len as int, line, role, cols@, cols.len() as int),
{
    let ghost start = diagnostic_views(diagnostics@);
    proof {
        assert(start + missing_findings(row_len as int, line, role, cols@, 0) =~= start);
    }
    let mut i: usize = 0;
    while i < cols.len()
        invariant
            i <= cols.len(),
            diagnostic_views(diagnostics@) == start + missing_findings(
                row_len as int,
                line,
                role,
                cols@,
                i as int,
            ),
        decreases cols.len() - i,
    {
        let ghost before = missing_findings(row_len as int, line, role, cols@, i as int);
        if cols[i] >= row_len {
            let mut message = decimal_string(line);
            message.append("行目: ");
            message.append(label_of(role));
            message.append("列のデータが不足しています。");
            push_error(diagnostics, message, Some(line), Some(cols[i]));
            proof {
                let added = failure(missing_message(line, role), Some(line), Some(cols@[i as int]));
                assert((start + before).push(added) =~= start + before.push(added));
            }
        }
        i += 1;
    }
}

/// Warns of a key that is empty or that an earlier row has, where the
/// table has reference columns.
fn check_key(
    parse: &ParseResult,
    r: usize,
    line: usize,
    ref_cols: &Vec<usize>,
    seen: &StringHashMap<bool>,
    diagnostics: &mut Vec<ParseError>,
) -> (key: String)
    requires
        r < parse.rows.len(),
        ref_cols@ == parse@.indices(role_ref()),
        forall|k: Seq<char>|
            #![trigger seen@.contains_key(k)]
            #![trigger parse@.first_row(k, r as int)]
            k.len() > 0 ==> (seen@.contains_key(k) <==> parse@.first_row(k, r as int) is Some),
    ensures
        key@ == parse@.key(r as int),
        diagnostic_views(final(diagnostics)@) == diagnostic_views(old(diagnostics)@)
            + key_findings(parse@, r as int, line),
{
    let ghost start = diagnostic_views(diagnostics@);
    let key = parse.get_ref(r);
    if ref_cols.len() > 0 {
        if key.as_str().is_empty() {
            let mut message = decimal_string(line);
            message.append("行目: Referenceが空です。");
            push_warning(diagnostics, message, Some(line), Some(ref_cols[0]));
        } else if seen.contains_key(key.as_str()) {
            let mut message = decimal_string(line);
            message.append("行目: Reference '");
            message.append(key.as_str());
            message.append("' が重複しています。");
            push_warning(diagnostics, message, Some(line), Some(ref_cols[0]));
        }
    }
    proof {
        assert(diagnostic_views(diagnostics@) =~= start + key_findings(parse@, r as int, line));
    }
    key
}

/// Warns of a row without a part number, where the table has a part-number
/// column.
fn check_part(
    parse: &ParseResult,
    r: usize,
    line: usize,
    part_cols: &Vec<usize>,
    diagnostics: &mut Vec<ParseError>,
)
    requires
        r < parse.rows.len(),
        part_cols@ == parse@.indices(role_part_no()),
    ensures
        diagnostic_views(final(diagnostics)@) == diagnostic_views(old(diagnostics)@)
            + part_findings(parse@, r as int, line),
{
    let ghost start = diagnostic_views(diagnostics@);
    if part_cols.len() > 0 {
        let parts = parse.get_values(r, "part_no");
        if parts.len() == 0 {
            let mut message = decimal_string(line);
            message.append("行目: 部品型番が空です。編集モードで指定してください。");
            push_warning(diagnostics, message, Some(line), Some(part_cols[0]));
        }
    }
    proof {
        assert(diagnostic_views(diagnostics@) =~= start + part_findings(parse@, r as int, line));
    }
}

/// Checks one row and appends what it finds.
fn check_row(
    parse: &ParseResult,
    r: usize,
    line: usize,
    ref_cols: &Vec<usize>,
    part_cols: &Vec<usize>,
    maker_cols: &Vec<usize>,
    value_cols: &Vec<usize>,
    seen: &StringHashMap<bool>,
    diagnostics: &mut Vec<ParseError>,
) -> (key: String)
    requires
        r < parse.rows.len(),
        ref_cols@ == parse@.indices(role_ref()),
        part_cols@ == parse@.indices(role_part_no()),
        maker_cols@ == parse@.indices(role_manufacturer()),
        value_cols@ == parse@.indices(role_value()),
        forall|k: Seq<char>|
            #![trigger seen@.contains_key(k)]
            #![trigger parse@.first_row(k, r as int)]
            k.len() > 0 ==> (seen@.contains_key(k) <==> parse@.first_row(k, r as int) is Some),
    ensures
        key@ == parse@.key(r as int),
        diagnostic_views(final(diagnostics)@) == diagnostic_views(old(diagnostics)@)
            + row_findings(parse@, r as int, line),
{
    let ghost t = parse@;
    let ghost d0 = diagnostic_views(diagnostics@);
    let row = &parse.rows[r];
    proof {
        assert(t.rows[r as int] == views(row@));
    }
    check_cells(row, line, diagnostics);
    check_missing(row.len(), line, Role::Reference, ref_cols, diagnostics);
    check_missing(row.len(), line, Role::PartNo, part_cols, diagnostics);
    check_missing(row.len(), line, Role::Manufacturer, maker_cols, diagnostics);
    check_missing(row.len(), line, Role::Value, value_cols, diagnostics);
    let key = check_key(parse, r, line, ref_cols, seen, diagnostics);
    check_part(parse, r, line, part_cols, diagnostics);
    proof {
        let a = char_findings(t.rows[r as int], line, t.rows[r as int].len() as int);
        let b1 = missing_of(t, r as int, line, Role::Reference);
        let b2 = missing_of(t, r as int, line, Role::PartNo);
        let b3 = missing_of(t, r as int, line, Role::Manufacturer);
        let b4 = missing_of(t, r as int, line, Role::Value);
        let c = key_findings(t, r as int, line);
        let d = part_findings(t, r as int, line);
        assert(diagnostic_views(diagnostics@) == d0 + a + b1 + b2 + b3 + b4 + c + d);
        assert(d0 + a + b1 + b2 + b3 + b4 + c + d =~= d0 + (a + b1 + b2 + b3 + b4 + c + d));
    }
    key
}

/// Checks every row of a table and appends what it finds: invalid
/// characters, rows too short for a column with a role, missing and
/// repeated keys, missing part numbers. The first row came from the line
/// after `lines_before` others.
pub fn validate_rows(parse: &ParseResult, lines_before: usize, diagnostics: &mut Vec<ParseError>)
    requires
        lines_before + parse.rows.len() <= usize::MAX,
    ensures
        diagnostic_views(final(diagnostics)@) == diagnostic_views(old(diagnostics)@) + findings(
            parse@,
            lines_before + 1,
            parse.rows.len() as int,
        ),
{
    let ghost t = parse@;
    let ghost start = diagnostic_views(diagnostics@);
    let ref_cols = parse.get_column_indices("ref");
    let part_cols = parse.get_column_indices("part_no");
    let maker_cols = parse.get_column_indices("manufacturer");
    let value_cols = parse.get_column_indices("value");
    let mut seen: StringHashMap<bool> = StringHashMap::new();
    proof {
        assert(start + findings(t, lines_before + 1, 0) =~= start);
    }
    let mut r: usize = 0;
    while r < parse.rows.len()
        invariant
            r <= parse.rows.len(),
            lines_before + parse.rows.len() <= usize::MAX,
            t == parse@,
            ref_cols@ == t.indices(role_ref()),
            part_cols@ == t.indices(role_part_no()),
            maker_cols@ == t.indices(role_manufacturer()),
            value_cols@ == t.indices(role_value()),
            forall|k: Seq<char>|
                #![trigger seen@.contains_key(k)]
                #![trigger t.first_row(k, r as int)]
                k.len() > 0 ==> (seen@.contains_key(k) <==> t.first_row(k, r as int) is Some),
            diagnostic_views(diagnostics@) == start + findings(t, lines_before + 1, r as int),
        decreases parse.rows.len() - r,
    {
        let line = lines_before + r + 1;
        let ghost done = findings(t, lines_before + 1, r as int);
        let key = check_row(
            parse,
            r,
            line,
            &ref_cols,
            &part_cols,
            &maker_cols,
            &value_cols,
            &seen,
            diagnostics,
        );
        proof {
            assert(start + done + row_findings(t, r as int, line) =~= start + (done + row_findings(
                t,
                r as int,
                line,
            )));
        }
        if !key.as_str().is_empty() && !seen.contains_key(key.as_str()) {
            seen.insert(key, true);
        }
        r += 1;
    }
}

/// The columns that speak for `role` in the input.
pub open spec fn found(raw: Seq<Seq<Seq<char>>>, role: Role) -> Seq<usize> {
    candidates(
        has_header(raw),
        header_of(raw),
        data_of(raw),
        width_of(header_of(raw), data_of(raw)) as int,
        role,
    )
}

/// The columns that `role` gets in the input.
pub open spec fn resolved(raw: Seq<Seq<Seq<char>>>, role: Role) -> Seq<usize> {
    assigned(role, has_header(raw), found(raw, role))
}

/// The role map of the input: an entry for each role that got columns, in
/// the order reference, part number, manufacturer, value.
pub open spec fn roles_of(raw: Seq<Seq<Seq<char>>>) -> Seq<(Seq<char>, Seq<Seq<char>>)> {
    let with_ref = with_role(Seq::empty(), Role::Reference, resolved(raw, Role::Reference));
    let with_part = with_role(with_ref, Role::PartNo, resolved(raw, Role::PartNo));
    let with_maker = with_role(with_part, Role::Manufacturer, resolved(raw, Role::Manufacturer));
    with_role(with_maker, Role::Value, resolved(raw, Role::Value))
}

/// The columns with a role, in the order in which the roles were assigned.
pub open spec fn priority_of(raw: Seq<Seq<Seq<char>>>) -> Seq<usize> {
    resolved(raw, Role::Reference) + resolved(raw, Role::PartNo) + resolved(
        raw,
        Role::Manufacturer,
    ) + resolved(raw, Role::Value)
}

/// The warnings for the roles that stay without columns.
pub open spec fn role_warnings_of(raw: Seq<Seq<Seq<char>>>) -> Seq<Diagnostic> {
    let headed = has_header(raw);
    let after_ref = with_role_warning(
        Seq::empty(),
        Role::Reference,
        headed,
        found(raw, Role::Reference),
    );
    let after_part = with_role_warning(after_ref, Role::PartNo, headed, found(raw, Role::PartNo));
    let after_maker = with_role_warning(
        after_part,
        Role::Manufacturer,
        headed,
        found(raw, Role::Manufacturer),
    );
    with_role_warning(after_maker, Role::Value, headed, found(raw, Role::Value))
}

/// The table that the input becomes, before its rows are checked.
pub open spec fn draft_of(raw: Seq<Seq<Seq<char>>>) -> Table {
    let header = header_of(raw);
    let data = data_of(raw);
    let width = width_of(header, data) as int;
    Table {
        rows: data,
        roles: roles_of(raw),
        column_order: column_order_of(priority_of(raw), width),
        headers: header_names_of(header, width),
        columns: columns_of(header, width),
        row_numbers: line_numbers(data_start(raw) + 1, data.len() as int),
        diagnostics: Seq::empty(),
    }
}

/// The table that the input becomes: the draft, with the warnings for the
/// roles and then what the check of the rows finds.
pub open spec fn classified(raw: Seq<Seq<Seq<char>>>) -> Table {
    let draft = draft_of(raw);
    Table {
        rows: draft.rows,
        roles: draft.roles,
        column_order: draft.column_order,
        headers: draft.headers,
        columns: draft.columns,
        row_numbers: draft.row_numbers,
        diagnostics: role_warnings_of(raw) + findings(
            draft,
            data_start(raw) + 1,
            draft.rows.len() as int,
        ),
    }
}

/// What is said of an input without a row that holds something.
pub open spec fn no_rows_message() -> Seq<char> {
    "BOMデータ内に有効な行が見つかりませんでした。"@
}

/// Classifies freshly ingested rows.
///
/// The blank rows before the first and after the last row that holds
/// something are dropped. The first row left is the header, unless a cell
/// of it speaks against that. With a header the roles go by the header
/// texts, without one by the shape of the columns' content. The rows after the header are the
/// data, kept as they are. The result is `Err` exactly when no row holds
/// anything.
pub fn build_bom_rows(rows: Vec<Vec<String>>) -> (r: Result<ParseResult, AppError>)
    ensures
        match r {
            Ok(t) => has_content(grid(rows@)) && t@ == classified(grid(rows@)),
            Err(e) => !has_content(grid(rows@)) && e.message@ == no_rows_message(),
        },
{
    let ghost raw = grid(rows@);
    let (first, end) = content_bounds(&rows);
    if first >= rows.len() {
        return Err(AppError::new("BOMデータ内に有効な行が見つかりませんでした。"));
    }
    let start = detect_data_start(&rows, first);
    let headed = start > first;
    let header: Vec<String> = if headed {
        copy_row(&rows[first])
    } else {
        Vec::new()
    };
    proof {
        assert(raw[first as int] == views(rows@[first as int]@));
        assert(views(header@) =~= header_of(raw));
        assert(start == data_start(raw));
    }
    let data = take_rows(&rows, start, end);
    let max_columns = widest(&header, &data);
    let (headers, columns) = name_columns(&header, max_columns);
    let analysis = if headed {
        match_headers(&header, max_columns)
    } else {
        analyze_columns(&data, max_columns)
    };
    proof {
        assert(forall|role: Role| #[trigger] analysis.of(role) == found(raw, role));
        let h = header_of(raw);
        let d = data_of(raw);
        let w = max_columns as int;
        assert forall|role: Role, i: int| 0 <= i < found(raw, role).len() implies (
        #[trigger] found(raw, role)[i]) < usize::MAX by {
            if headed {
                lemma_chosen_bounds(w, |c: int| 0 <= c < h.len() && header_names(h[c], role));
            } else {
                lemma_chosen_bounds(
                    w,
                    |c: int|
                        2 * alike(d, c, role, sample_size(d)) > filled(d, c, sample_size(d)),
                );
            }
        }
        assert(analysis.of(Role::Reference) == found(raw, Role::Reference));
        assert(analysis.of(Role::PartNo) == found(raw, Role::PartNo));
        assert(analysis.of(Role::Manufacturer) == found(raw, Role::Manufacturer));
        assert(analysis.of(Role::Value) == found(raw, Role::Value));
    }
    let mut column_roles: Vec<RoleColumns> = Vec::new();
    let mut diagnostics: Vec<ParseError> = Vec::new();
    let mut priority: Vec<usize> = Vec::new();
    proof {
        assert(role_views(column_roles@) =~= Seq::empty());
        assert(diagnostic_views(diagnostics@) =~= Seq::empty());
    }
    assign_role(
        Role::Reference,
        headed,
        &analysis.reference_candidates,
        &mut column_roles,
        &mut diagnostics,
        &mut priority,
    );
    assign_role(
        Role::PartNo,
        headed,
        &analysis.part_candidates,
        &mut column_roles,
        &mut diagnostics,
        &mut priority,
    );
    assign_role(
        Role::Manufacturer,
        headed,
        &analysis.manufacturer_candidates,
        &mut column_roles,
        &mut diagnostics,
        &mut priority,
    );
    assign_role(
        Role::Value,
        headed,
        &analysis.value_candidates,
        &mut column_roles,
        &mut diagnostics,
        &mut priority,
    );
    proof {
        assert(priority@ =~= priority_of(raw));
    }
    let column_order = order_columns(&priority, max_columns);
    let row_numbers = number_rows(start, data.len());
    let mut result = ParseResult {
        rows: data,
        column_roles,
        column_order,
        headers,
        columns,
        row_numbers,
        diagnostics: Vec::new(),
    };
    proof {
        assert(result@.diagnostics =~= Seq::empty());
        assert(result@ == draft_of(raw));
    }
    validate_rows(&result, start, &mut diagnostics);
    result.diagnostics = diagnostics;
    Ok(result)
}

/// Classification is a function of the input: two tables that classify the
/// same rows have the same role map, the same column order and the same
/// findings.
pub proof fn law_classification_is_determined(raw: Seq<Seq<Seq<char>>>, a: Table, b: Table)
    requires
        a == classified(raw),
        b == classified(raw),
    ensures
        a.roles == b.roles,
        a.column_order == b.column_order,
        a.diagnostics == b.diagnostics,
{
}

/// The ids of columns name the columns' positions.
pub proof fn lemma_ids_read_back(cols: Seq<usize>)
    ensures
        positions(ids_of(cols)) == cols,
    decreases cols.len(),
{
    let ids = ids_of(cols);
    if cols.len() > 0 {
        let front = cols.take(cols.len() - 1);
        lemma_ids_read_back(front);
        assert(ids.take(ids.len() - 1) =~= ids_of(front));
        lemma_column_id_reads_back(cols[cols.len() - 1]);
        assert(positions(ids) =~= cols);
    } else {
        assert(positions(ids) =~= cols);
    }
}

/// The role map of a classified table holds each of the four roles at most
/// once, and holds for each of them the ids of the columns it got.
pub proof fn lemma_roles_of(raw: Seq<Seq<Seq<char>>>, role: Role)
    ensures
        distinct_roles(roles_of(raw)),
        role_ids(roles_of(raw), role_name(role)) == ids_of(resolved(raw, role)),
{
    lemma_role_names_differ();
    let r0 = resolved(raw, Role::Reference);
    let r1 = resolved(raw, Role::PartNo);
    let r2 = resolved(raw, Role::Manufacturer);
    let r3 = resolved(raw, Role::Value);
    let m0 = with_role(Seq::empty(), Role::Reference, r0);
    let m1 = with_role(m0, Role::PartNo, r1);
    let m2 = with_role(m1, Role::Manufacturer, r2);
    let m3 = with_role(m2, Role::Value, r3);
    assert(m3 == roles_of(raw));
    assert(forall|k: int| 0 <= k < m0.len() ==> (#[trigger] m0[k]).0 == role_ref());
    assert(forall|k: int|
        0 <= k < m1.len() ==> (#[trigger] m1[k]).0 == role_ref() || m1[k].0 == role_part_no());
    assert(forall|k: int|
        0 <= k < m2.len() ==> (#[trigger] m2[k]).0 == role_ref() || m2[k].0 == role_part_no()
            || m2[k].0 == role_manufacturer());
    assert(distinct_roles(m0));
    assert(distinct_roles(m1));
    assert(distinct_roles(m2));
    assert(distinct_roles(m3));
    let name = role_name(role);
    let cols = resolved(raw, role);
    if cols.len() == 0 {
        assert(ids_of(cols) =~= Seq::<Seq<char>>::empty());
        assert forall|k: int| 0 <= k < m3.len() implies (#[trigger] m3[k]).0 != name by {
            lemma_entries_of(raw, k);
        }
        lemma_role_absent(m3, name);
    } else {
        let i = entry_of(raw, role);
        lemma_entry_of(raw, role);
        assert forall|k: int| 0 <= k < i implies (#[trigger] m3[k]).0 != name by {
            assert(m3[k].0 != m3[i].0);
        }
        lemma_role_position_of(m3, name, i);
    }
}

/// The place of a role in the role map of a classified table: after the
/// roles before it that got columns.
pub open spec fn entry_of(raw: Seq<Seq<Seq<char>>>, role: Role) -> int {
    let taken = |r: Role|
        if resolved(raw, r).len() > 0 {
            1int
        } else {
            0int
        };
    match role {
        Role::Reference => 0,
        Role::PartNo => taken(Role::Reference),
        Role::Manufacturer => taken(Role::Reference) + taken(Role::PartNo),
        Role::Value => taken(Role::Reference) + taken(Role::PartNo) + taken(Role::Manufacturer),
    }
}

/// A role that got columns stands at its place in the role map, with the
/// ids of its columns.
pub proof fn lemma_entry_of(raw: Seq<Seq<Seq<char>>>, role: Role)
    requires
        resolved(raw, role).len() > 0,
    ensures
        0 <= entry_of(raw, role) < roles_of(raw).len(),
        roles_of(raw)[entry_of(raw, role)] == (role_name(role), ids_of(resolved(raw, role))),
{
}

/// Every entry of the role map of a classified table belongs to a role
/// that got columns.
pub proof fn lemma_entries_of(raw: Seq<Seq<Seq<char>>>, k: int)
    requires
        0 <= k < roles_of(raw).len(),
    ensures
        exists|role: Role|
            resolved(raw, role).len() > 0 && roles_of(raw)[k].0 == #[trigger] role_name(role),
{
    let r0 = resolved(raw, Role::Reference);
    let r1 = resolved(raw, Role::PartNo);
    let r2 = resolved(raw, Role::Manufacturer);
    let r3 = resolved(raw, Role::Value);
    let m = roles_of(raw);
    if r0.len() > 0 && k == entry_of(raw, Role::Reference) {
        assert(m[k].0 == role_name(Role::Reference));
    } else if r1.len() > 0 && k == entry_of(raw, Role::PartNo) {
        assert(m[k].0 == role_name(Role::PartNo));
    } else if r2.len() > 0 && k == entry_of(raw, Role::Manufacturer) {
        assert(m[k].0 == role_name(Role::Manufacturer));
    } else {
        assert(r3.len() > 0 && k == entry_of(raw, Role::Value));
        assert(m[k].0 == role_name(Role::Value));
    }
}

/// A classified table is well formed: its role map holds no role twice.
pub proof fn law_classified_is_well_formed(raw: Seq<Seq<Seq<char>>>)
    ensures
        classified(raw).well_formed(),
{
    lemma_roles_of(raw, Role::Reference);
}

/// What the classifier assigns, the accessor finds: the columns that a
/// classified table holds under a role are the columns that the role got.
pub proof fn law_assigned_columns_are_read(raw: Seq<Seq<Seq<char>>>, role: Role)
    ensures
        classified(raw).indices(role_name(role)) == resolved(raw, role),
{
    lemma_roles_of(raw, role);
    lemma_ids_read_back(resolved(raw, role));
}

} // verus!
