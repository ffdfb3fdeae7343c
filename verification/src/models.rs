//! The tabular data model and the role-aware read access to it.

use crate::text::{
    blank, column_index, contains_text, is_blank, join, joined, parse_column_id, same_text, trim,
    trimmed, views,
};
use vstd::prelude::*;

verus! {

/// Identity of one column: a positional id and the name shown for it.
#[derive(Clone, Debug)]
pub struct ColumnMeta {
    pub id: String,
    pub name: String,
}

/// One advisory finding of an ingestion pass.
#[derive(Clone, Debug)]
pub struct ParseError {
    pub message: String,
    pub row: Option<usize>,
    pub column: Option<usize>,
    pub severity: String,
}

/// The columns that carry one role, in the order of assignment.
#[derive(Clone, Debug)]
pub struct RoleColumns {
    pub role: String,
    pub column_ids: Vec<String>,
}

/// A table of cells together with what is known about its columns.
#[derive(Clone, Debug)]
pub struct ParseResult {
    pub rows: Vec<Vec<String>>,
    pub column_roles: Vec<RoleColumns>,
    pub column_order: Vec<String>,
    pub headers: Vec<String>,
    pub columns: Vec<ColumnMeta>,
    pub row_numbers: Vec<usize>,
    pub diagnostics: Vec<ParseError>,
}

/// The result of comparing one row of a table with its counterpart.
#[derive(Clone, Debug)]
pub struct DiffRow {
    pub status: String,
    pub a_index: Option<usize>,
    pub b_index: Option<usize>,
    pub ref_value: String,
    pub changed_columns: Vec<String>,
}

/// A failure that ends an operation; it carries a message and nothing else.
#[derive(Clone, Debug)]
pub struct AppError {
    pub message: String,
}

/// What a `ParseError` stands for in contracts.
pub struct Diagnostic {
    pub message: Seq<char>,
    pub row: Option<usize>,
    pub column: Option<usize>,
    pub severity: Seq<char>,
}

/// What a `ParseResult` stands for in contracts: every string by its
/// characters, every vector by its sequence.
pub struct Table {
    pub rows: Seq<Seq<Seq<char>>>,
    pub roles: Seq<(Seq<char>, Seq<Seq<char>>)>,
    pub column_order: Seq<Seq<char>>,
    pub headers: Seq<Seq<char>>,
    pub columns: Seq<(Seq<char>, Seq<char>)>,
    pub row_numbers: Seq<usize>,
    pub diagnostics: Seq<Diagnostic>,
}

/// What a `DiffRow` stands for in contracts.
pub struct Change {
    pub status: Seq<char>,
    pub a_index: Option<usize>,
    pub b_index: Option<usize>,
    pub key: Seq<char>,
    pub changed_columns: Seq<Seq<char>>,
}

/// The cells of a grid, each by its characters.
pub open spec fn grid(rows: Seq<Vec<String>>) -> Seq<Seq<Seq<char>>> {
    Seq::new(rows.len(), |i: int| views(rows[i]@))
}

/// The entries of a role map, each by its characters.
pub open spec fn role_views(roles: Seq<RoleColumns>) -> Seq<(Seq<char>, Seq<Seq<char>>)> {
    Seq::new(roles.len(), |i: int| (roles[i].role@, views(roles[i].column_ids@)))
}

/// The identities of columns, each by its characters.
pub open spec fn column_views(columns: Seq<ColumnMeta>) -> Seq<(Seq<char>, Seq<char>)> {
    Seq::new(columns.len(), |i: int| (columns[i].id@, columns[i].name@))
}

/// The findings, each by its view.
pub open spec fn diagnostic_views(items: Seq<ParseError>) -> Seq<Diagnostic> {
    Seq::new(items.len(), |i: int| items[i]@)
}

/// The changes, each by its view.
pub open spec fn change_views(items: Seq<DiffRow>) -> Seq<Change> {
    Seq::new(items.len(), |i: int| items[i]@)
}

impl View for ParseError {
    type V = Diagnostic;

    open spec fn view(&self) -> Diagnostic {
        Diagnostic {
            message: self.message@,
            row: self.row,
            column: self.column,
            severity: self.severity@,
        }
    }
}

impl View for ParseResult {
    type V = Table;

    open spec fn view(&self) -> Table {
        Table {
            rows: grid(self.rows@),
            roles: role_views(self.column_roles@),
            column_order: views(self.column_order@),
            headers: views(self.headers@),
            columns: column_views(self.columns@),
            row_numbers: self.row_numbers@,
            diagnostics: diagnostic_views(self.diagnostics@),
        }
    }
}

impl View for DiffRow {
    type V = Change;

    open spec fn view(&self) -> Change {
        Change {
            status: self.status@,
            a_index: self.a_index,
            b_index: self.b_index,
            key: self.ref_value@,
            changed_columns: views(self.changed_columns@),
        }
    }
}

/// The name of the role of the reference designator.
pub open spec fn role_ref() -> Seq<char> {
    "ref"@
}

/// The name of the role of the part number.
pub open spec fn role_part_no() -> Seq<char> {
    "part_no"@
}

/// The name of the role of the manufacturer.
pub open spec fn role_manufacturer() -> Seq<char> {
    "manufacturer"@
}

/// The name of the role of the value.
pub open spec fn role_value() -> Seq<char> {
    "value"@
}

/// The four role names are four different strings.
pub proof fn lemma_role_names_differ()
    ensures
        role_ref() != role_part_no(),
        role_ref() != role_manufacturer(),
        role_ref() != role_value(),
        role_part_no() != role_manufacturer(),
        role_part_no() != role_value(),
        role_manufacturer() != role_value(),
{
    reveal_strlit("ref");
    reveal_strlit("part_no");
    reveal_strlit("manufacturer");
    reveal_strlit("value");
    assert(role_ref().len() == 3);
    assert(role_part_no().len() == 7);
    assert(role_manufacturer().len() == 12);
    assert(role_value().len() == 5);
}

/// What stands between the values of a key that spans several columns.
pub open spec fn key_separator() -> Seq<char> {
    ", "@
}

/// Position of the first entry for `role`, if the role has one.
pub open spec fn role_position(roles: Seq<(Seq<char>, Seq<Seq<char>>)>, role: Seq<char>) -> Option<
    int,
>
    decreases roles.len(),
{
    if roles.len() == 0 {
        None
    } else {
        match role_position(roles.take(roles.len() - 1), role) {
            Some(i) => Some(i),
            None => if roles[roles.len() - 1].0 == role {
                Some(roles.len() - 1)
            } else {
                None
            },
        }
    }
}

/// The column ids assigned to `role`; none when the role is not assigned.
pub open spec fn role_ids(roles: Seq<(Seq<char>, Seq<Seq<char>>)>, role: Seq<char>) -> Seq<
    Seq<char>,
> {
    match role_position(roles, role) {
        Some(i) => roles[i].1,
        None => Seq::empty(),
    }
}

/// `role_position` finds the first entry for the role, and finds none only
/// when the map has none.
pub proof fn lemma_role_position(roles: Seq<(Seq<char>, Seq<Seq<char>>)>, role: Seq<char>)
    ensures
        match role_position(roles, role) {
            Some(i) => 0 <= i < roles.len() && roles[i].0 == role && forall|k: int|
                0 <= k < i ==> (#[trigger] roles[k]).0 != role,
            None => forall|k: int| 0 <= k < roles.len() ==> (#[trigger] roles[k]).0 != role,
        },
    decreases roles.len(),
{
    if roles.len() > 0 {
        let front = roles.take(roles.len() - 1);
        lemma_role_position(front, role);
        assert forall|k: int| 0 <= k < front.len() implies front[k] == roles[k] by {}
        match role_position(front, role) {
            Some(i) => {
                assert(front[i] == roles[i]);
            },
            None => {
                assert forall|k: int| 0 <= k < roles.len() - 1 implies (#[trigger] roles[k]).0
                    != role by {
                    assert(front[k] == roles[k]);
                }
            },
        }
    }
}

/// No role name occurs twice.
pub open spec fn distinct_roles(roles: Seq<(Seq<char>, Seq<Seq<char>>)>) -> bool {
    forall|i: int, j: int|
        0 <= i < j < roles.len() ==> (#[trigger] roles[i]).0 != (#[trigger] roles[j]).0
}

/// Whether the column that `id` names holds something in `row`.
pub open spec fn has_cell(row: Seq<Seq<char>>, id: Seq<char>) -> bool {
    match column_index(id) {
        Some(i) => i < row.len() && !is_blank(row[i as int]),
        None => false,
    }
}

/// The trimmed, non-empty cells of `row` under the columns `ids`, in the
/// order of `ids`. An id that names no column of the row contributes nothing.
pub open spec fn picked(row: Seq<Seq<char>>, ids: Seq<Seq<char>>) -> Seq<Seq<char>>
    decreases ids.len(),
{
    if ids.len() == 0 {
        Seq::empty()
    } else {
        let before = picked(row, ids.take(ids.len() - 1));
        let id = ids[ids.len() - 1];
        if has_cell(row, id) {
            before.push(trimmed(row[column_index(id)->0 as int]))
        } else {
            before
        }
    }
}

impl Table {
    /// The values of row `r` under `role`.
    pub open spec fn values(self, r: int, role: Seq<char>) -> Seq<Seq<char>> {
        if 0 <= r < self.rows.len() {
            picked(self.rows[r], role_ids(self.roles, role))
        } else {
            Seq::empty()
        }
    }

    /// The join key of row `r`: its reference values, joined.
    pub open spec fn key(self, r: int) -> Seq<char> {
        joined(self.values(r, role_ref()), key_separator())
    }

    /// The first value of row `r` under `role`, or nothing.
    pub open spec fn first_value(self, r: int, role: Seq<char>) -> Seq<char> {
        let all = self.values(r, role);
        if all.len() > 0 {
            all[0]
        } else {
            Seq::empty()
        }
    }

    /// The positions that the ids of `role` name, in order; an id that names
    /// none is passed over.
    pub open spec fn indices(self, role: Seq<char>) -> Seq<usize> {
        positions(role_ids(self.roles, role))
    }

    /// What the type promises of its role map: one entry for a role.
    pub open spec fn well_formed(self) -> bool {
        distinct_roles(self.roles)
    }
}

impl Table {
    /// The first of the first `n` rows whose key is `k`.
    pub open spec fn first_row(self, k: Seq<char>, n: int) -> Option<int>
        decreases n,
    {
        if n <= 0 {
            None
        } else {
            match self.first_row(k, n - 1) {
                Some(r) => Some(r),
                None => if self.key(n - 1) == k {
                    Some(n - 1)
                } else {
                    None
                },
            }
        }
    }

    /// The row that stands for the key `k`: the first that has it.
    pub open spec fn row_of(self, k: Seq<char>) -> Option<int> {
        self.first_row(k, self.rows.len() as int)
    }
}

/// `first_row` finds the least row with the key, and finds none only when
/// no row has it.
pub proof fn lemma_first_row(t: Table, k: Seq<char>, n: int)
    ensures
        match t.first_row(k, n) {
            Some(r) => 0 <= r < n && t.key(r) == k && forall|q: int|
                0 <= q < r ==> #[trigger] t.key(q) != k,
            None => forall|q: int| 0 <= q < n ==> #[trigger] t.key(q) != k,
        },
    decreases n,
{
    if n > 0 {
        lemma_first_row(t, k, n - 1);
    }
}

/// A role that stands in the map once is found at its place.
pub proof fn lemma_role_position_of(
    roles: Seq<(Seq<char>, Seq<Seq<char>>)>,
    role: Seq<char>,
    i: int,
)
    requires
        0 <= i < roles.len(),
        roles[i].0 == role,
        forall|k: int| 0 <= k < i ==> (#[trigger] roles[k]).0 != role,
    ensures
        role_position(roles, role) == Some(i),
{
    lemma_role_position(roles, role);
}

/// A role that stands nowhere in the map has no place.
pub proof fn lemma_role_absent(roles: Seq<(Seq<char>, Seq<Seq<char>>)>, role: Seq<char>)
    requires
        forall|k: int| 0 <= k < roles.len() ==> (#[trigger] roles[k]).0 != role,
    ensures
        role_position(roles, role) is None,
{
    lemma_role_position(roles, role);
}

/// The positions named by `ids`, in order.
pub open spec fn positions(ids: Seq<Seq<char>>) -> Seq<usize>
    decreases ids.len(),
{
    if ids.len() == 0 {
        Seq::empty()
    } else {
        let before = positions(ids.take(ids.len() - 1));
        match column_index(ids[ids.len() - 1]) {
            Some(i) => before.push(i),
            None => before,
        }
    }
}

/// A copy of a row.
pub fn copy_row(r: &Vec<String>) -> (c: Vec<String>)
    ensures
        c@ == r@,
{
    r.clone()
}

/// A copy of a grid of cells.
pub fn copy_rows(rows: &Vec<Vec<String>>) -> (c: Vec<Vec<String>>)
    ensures
        grid(c@) == grid(rows@),
{
    let mut out: Vec<Vec<String>> = Vec::new();
    let mut i: usize = 0;
    while i < rows.len()
        invariant
            i <= rows.len(),
            out.len() == i,
            forall|k: int| 0 <= k < i ==> (#[trigger] out@[k])@ == rows@[k]@,
        decreases rows.len() - i,
    {
        out.push(copy_row(&rows[i]));
        i += 1;
    }
    proof {
        assert(grid(out@) =~= grid(rows@));
    }
    out
}

/// A copy of a role map.
pub fn copy_roles(roles: &Vec<RoleColumns>) -> (c: Vec<RoleColumns>)
    ensures
        role_views(c@) == role_views(roles@),
{
    let mut out: Vec<RoleColumns> = Vec::new();
    let mut i: usize = 0;
    while i < roles.len()
        invariant
            i <= roles.len(),
            out.len() == i,
            forall|k: int|
                0 <= k < i ==> (#[trigger] out@[k]).role@ == roles@[k].role@ && out@[k].column_ids@
                    == roles@[k].column_ids@,
        decreases roles.len() - i,
    {
        out.push(
            RoleColumns {
                role: roles[i].role.clone(),
                column_ids: copy_row(&roles[i].column_ids),
            },
        );
        i += 1;
    }
    proof {
        assert(role_views(out@) =~= role_views(roles@));
    }
    out
}

/// A copy of the column identities.
pub fn copy_columns(columns: &Vec<ColumnMeta>) -> (c: Vec<ColumnMeta>)
    ensures
        column_views(c@) == column_views(columns@),
{
    let mut out: Vec<ColumnMeta> = Vec::new();
    let mut i: usize = 0;
    while i < columns.len()
        invariant
            i <= columns.len(),
            out.len() == i,
            forall|k: int|
                0 <= k < i ==> (#[trigger] out@[k]).id@ == columns@[k].id@ && out@[k].name@
                    == columns@[k].name@,
        decreases columns.len() - i,
    {
        out.push(ColumnMeta { id: columns[i].id.clone(), name: columns[i].name.clone() });
        i += 1;
    }
    proof {
        assert(column_views(out@) =~= column_views(columns@));
    }
    out
}

/// A copy of a list of findings.
pub fn copy_diagnostics(items: &Vec<ParseError>) -> (c: Vec<ParseError>)
    ensures
        diagnostic_views(c@) == diagnostic_views(items@),
{
    let mut out: Vec<ParseError> = Vec::new();
    let mut i: usize = 0;
    while i < items.len()
        invariant
            i <= items.len(),
            out.len() == i,
            forall|k: int| 0 <= k < i ==> (#[trigger] out@[k])@ == items@[k]@,
        decreases items.len() - i,
    {
        out.push(
            ParseError {
                message: items[i].message.clone(),
                row: items[i].row,
                column: items[i].column,
                severity: items[i].severity.clone(),
            },
        );
        i += 1;
    }
    proof {
        assert(diagnostic_views(out@) =~= diagnostic_views(items@));
    }
    out
}

/// A copy of a table.
pub fn copy_table(parse: &ParseResult) -> (c: ParseResult)
    ensures
        c@ == parse@,
{
    ParseResult {
        rows: copy_rows(&parse.rows),
        column_roles: copy_roles(&parse.column_roles),
        column_order: copy_row(&parse.column_order),
        headers: copy_row(&parse.headers),
        columns: copy_columns(&parse.columns),
        row_numbers: parse.row_numbers.clone(),
        diagnostics: copy_diagnostics(&parse.diagnostics),
    }
}

/// The numbers from 1 to `count`.
pub open spec fn counted(count: nat) -> Seq<usize> {
    Seq::new(count, |i: int| (i + 1) as usize)
}

/// Numbers `count` rows from 1.
pub fn count_rows(count: usize) -> (r: Vec<usize>)
    ensures
        r@ == counted(count as nat),
{
    let mut out: Vec<usize> = Vec::new();
    let mut n: usize = 0;
    while n < count
        invariant
            n <= count,
            out@ == counted(n as nat),
        decreases count - n,
    {
        out.push(n + 1);
        proof {
            assert(out@ =~= counted((n + 1) as nat));
        }
        n += 1;
    }
    out
}

/// A table with new rows: the rows are numbered from 1 and carry no
/// findings; headers, columns, roles and column order stay.
pub open spec fn with_rows(t: Table, rows: Seq<Seq<Seq<char>>>) -> Table {
    Table {
        rows,
        roles: t.roles,
        column_order: t.column_order,
        headers: t.headers,
        columns: t.columns,
        row_numbers: counted(rows.len()),
        diagnostics: Seq::empty(),
    }
}

/// A table with its rows changed in place: the rows keep their numbers and
/// carry no findings; headers, columns, roles and column order stay.
pub open spec fn with_cells(t: Table, rows: Seq<Seq<Seq<char>>>) -> Table {
    Table {
        rows,
        roles: t.roles,
        column_order: t.column_order,
        headers: t.headers,
        columns: t.columns,
        row_numbers: t.row_numbers,
        diagnostics: Seq::empty(),
    }
}

/// Builds a table out of new rows and what stays of `parse`.
pub fn rebuild(parse: &ParseResult, rows: Vec<Vec<String>>, renumber: bool) -> (r: ParseResult)
    ensures
        r@ == if renumber {
            with_rows(parse@, grid(rows@))
        } else {
            with_cells(parse@, grid(rows@))
        },
{
    let row_numbers = if renumber {
        count_rows(rows.len())
    } else {
        parse.row_numbers.clone()
    };
    let result = ParseResult {
        rows,
        column_roles: copy_roles(&parse.column_roles),
        column_order: copy_row(&parse.column_order),
        headers: copy_row(&parse.headers),
        columns: copy_columns(&parse.columns),
        row_numbers,
        diagnostics: Vec::new(),
    };
    proof {
        assert(result@.diagnostics =~= Seq::empty());
    }
    result
}

impl ParseResult {
    /// Position of the entry for `role` in the role map.
    fn find_role(&self, role: &str) -> (r: Option<usize>)
        ensures
            match r {
                Some(i) => i < self.column_roles.len() && role_position(self@.roles, role@)
                    == Some(i as int),
                None => role_position(self@.roles, role@) is None,
            },
    {
        let mut i: usize = 0;
        let ghost roles = self@.roles;
        while i < self.column_roles.len()
            invariant
                i <= self.column_roles.len(),
                roles == self@.roles,
                role_position(roles.take(i as int), role@) is None,
            decreases self.column_roles.len() - i,
        {
            proof {
                let next = roles.take(i + 1);
                assert(next.take(next.len() - 1) =~= roles.take(i as int));
                assert(roles[i as int].0 == self.column_roles@[i as int].role@);
                assert(next[next.len() - 1] == roles[i as int]);
            }
            if same_text(self.column_roles[i].role.as_str(), role) {
                proof {
                    lemma_role_found(roles, role@, i as int);
                }
                return Some(i);
            }
            i += 1;
        }
        proof {
            assert(roles.take(i as int) =~= roles);
        }
        None
    }

    /// The trimmed, non-empty values of row `row_index` under every column
    /// assigned to `role`, in the order of assignment.
    pub fn get_values(&self, row_index: usize, role: &str) -> (r: Vec<String>)
        ensures
            views(r@) == self@.values(row_index as int, role@),
    {
        let mut out: Vec<String> = Vec::new();
        if row_index >= self.rows.len() {
            proof {
                assert(views(out@) =~= Seq::<Seq<char>>::empty());
            }
            return out;
        }
        let entry = match self.find_role(role) {
            Some(e) => e,
            None => {
                proof {
                    assert(views(out@) =~= Seq::<Seq<char>>::empty());
                    assert(picked(self@.rows[row_index as int], Seq::empty()) =~= Seq::<
                        Seq<char>,
                    >::empty());
                }
                return out;
            },
        };
        let row = &self.rows[row_index];
        let ids = &self.column_roles[entry].column_ids;
        let ghost srow = views(row@);
        let ghost sids = views(ids@);
        let mut i: usize = 0;
        while i < ids.len()
            invariant
                i <= ids.len(),
                srow == views(row@),
                sids == views(ids@),
                views(out@) == picked(srow, sids.take(i as int)),
            decreases ids.len() - i,
        {
            proof {
                let next = sids.take(i + 1);
                assert(next.take(next.len() - 1) =~= sids.take(i as int));
                assert(next[next.len() - 1] == ids@[i as int]@);
            }
            let ghost before = views(out@);
            match parse_column_id(ids[i].as_str()) {
                Some(idx) => {
                    if idx < row.len() && !blank(row[idx].as_str()) {
                        let cell = trim(row[idx].as_str());
                        out.push(cell);
                        proof {
                            assert(views(out@) =~= before.push(trimmed(srow[idx as int])));
                        }
                    }
                },
                None => {},
            }
            i += 1;
        }
        proof {
            assert(sids.take(ids.len() as int) =~= sids);
            assert(self@.rows[row_index as int] == srow);
            assert(self@.roles[entry as int].1 == sids);
        }
        out
    }

    /// The join key of a row: its reference values joined by `", "`.
    pub fn get_ref(&self, row_index: usize) -> (r: String)
        ensures
            r@ == self@.key(row_index as int),
    {
        let parts = self.get_values(row_index, "ref");
        join(&parts, ", ")
    }

    /// The first value of a row under `role`, or the empty string.
    fn first_of(&self, row_index: usize, role: &str) -> (r: String)
        ensures
            r@ == self@.first_value(row_index as int, role@),
    {
        let parts = self.get_values(row_index, role);
        if parts.len() > 0 {
            parts[0].clone()
        } else {
            String::new()
        }
    }

    /// The part number of a row, or the empty string.
    pub fn get_part_no(&self, row_index: usize) -> (r: String)
        ensures
            r@ == self@.first_value(row_index as int, role_part_no()),
    {
        self.first_of(row_index, "part_no")
    }

    /// The manufacturer of a row, or the empty string.
    pub fn get_manufacturer(&self, row_index: usize) -> (r: String)
        ensures
            r@ == self@.first_value(row_index as int, role_manufacturer()),
    {
        self.first_of(row_index, "manufacturer")
    }

    /// The value of a row, or the empty string.
    pub fn get_value(&self, row_index: usize) -> (r: String)
        ensures
            r@ == self@.first_value(row_index as int, role_value()),
    {
        self.first_of(row_index, "value")
    }

    /// The positions of the columns assigned to `role`.
    pub fn get_column_indices(&self, role: &str) -> (r: Vec<usize>)
        ensures
            r@ == self@.indices(role@),
    {
        let mut out: Vec<usize> = Vec::new();
        let entry = match self.find_role(role) {
            Some(e) => e,
            None => {
                return out;
            },
        };
        let ids = &self.column_roles[entry].column_ids;
        let ghost sids = views(ids@);
        let mut i: usize = 0;
        while i < ids.len()
            invariant
                i <= ids.len(),
                sids == views(ids@),
                out@ == positions(sids.take(i as int)),
            decreases ids.len() - i,
        {
            proof {
                let next = sids.take(i + 1);
                assert(next.take(next.len() - 1) =~= sids.take(i as int));
                assert(next[next.len() - 1] == ids@[i as int]@);
            }
            match parse_column_id(ids[i].as_str()) {
                Some(idx) => {
                    out.push(idx);
                },
                None => {},
            }
            i += 1;
        }
        proof {
            assert(sids.take(ids.len() as int) =~= sids);
            assert(self@.roles[entry as int].1 == sids);
        }
        out
    }

    /// The ids of the columns assigned to `role`, in the order of assignment.
    pub fn column_ids(&self, role: &str) -> (r: Vec<String>)
        ensures
            views(r@) == role_ids(self@.roles, role@),
    {
        match self.find_role(role) {
            Some(e) => {
                let ids = copy_row(&self.column_roles[e].column_ids);
                proof {
                    assert(self@.roles[e as int].1 == views(ids@));
                }
                ids
            },
            None => {
                let ids: Vec<String> = Vec::new();
                proof {
                    assert(views(ids@) =~= Seq::<Seq<char>>::empty());
                }
                ids
            },
        }
    }

    /// Whether the role map has an entry for `role`.
    pub fn has_role_entry(&self, role: &str) -> (r: bool)
        ensures
            r == (role_position(self@.roles, role@) is Some),
    {
        self.find_role(role).is_some()
    }

    /// Whether the column `col_id` is assigned to `role`.
    pub fn has_role(&self, col_id: &str, role: &str) -> (r: bool)
        ensures
            r == role_ids(self@.roles, role@).contains(col_id@),
    {
        let entry = match self.find_role(role) {
            Some(e) => e,
            None => {
                return false;
            },
        };
        let ids = &self.column_roles[entry].column_ids;
        let found = contains_text(ids, col_id);
        proof {
            assert(self@.roles[entry as int].1 == views(ids@));
        }
        found
    }
}

impl AppError {
    /// An error that carries `message`.
    pub fn new(message: &str) -> (r: Self)
        ensures
            r.message@ == message@,
    {
        AppError { message: message.to_owned() }
    }

    /// The text of the error.
    pub fn describe(&self) -> (r: String)
        ensures
            r@ == self.message@,
    {
        self.message.clone()
    }
}

/// Once an entry for `role` stands at `i` and none before it, `i` is the
/// role's position in every longer map.
pub proof fn lemma_role_found(roles: Seq<(Seq<char>, Seq<Seq<char>>)>, role: Seq<char>, i: int)
    requires
        0 <= i < roles.len(),
        roles[i].0 == role,
        role_position(roles.take(i), role) is None,
    ensures
        role_position(roles, role) == Some(i),
    decreases roles.len() - i,
{
    lemma_role_position(roles, role);
    lemma_role_position(roles.take(i), role);
    match role_position(roles, role) {
        Some(j) => {
            if j < i {
                assert(roles.take(i)[j] == roles[j]);
            }
        },
        None => {},
    }
}

} // verus!
