//! Comparison of two tables, row by row, matched by join key.

use crate::models::{
    change_views, lemma_first_row, picked, role_ids, role_manufacturer, role_part_no, role_value,
    Change, DiffRow, ParseResult, Table,
};
use crate::text::{
    column_id, column_index, extend_unique, extended, lemma_blank_characterised, make_column_id,
    trim, trimmed, views,
};
use vstd::hash_map::StringHashMap;
use vstd::prelude::*;

verus! {

/// The status of a row that only the second table has.
pub open spec fn status_added() -> Seq<char> {
    "added"@
}

/// The status of a row that only the first table has.
pub open spec fn status_removed() -> Seq<char> {
    "removed"@
}

/// The status of a row that differs from its counterpart.
pub open spec fn status_modified() -> Seq<char> {
    "modified"@
}

/// The status of a row that is like its counterpart.
pub open spec fn status_unchanged() -> Seq<char> {
    "unchanged"@
}

/// The four statuses are four different strings.
pub proof fn lemma_statuses_differ()
    ensures
        status_added() != status_removed(),
        status_added() != status_modified(),
        status_added() != status_unchanged(),
        status_removed() != status_modified(),
        status_removed() != status_unchanged(),
        status_modified() != status_unchanged(),
{
    reveal_strlit("added");
    reveal_strlit("removed");
    reveal_strlit("modified");
    reveal_strlit("unchanged");
    assert(status_added().len() == 5);
    assert(status_removed().len() == 7);
    assert(status_modified().len() == 8);
    assert(status_unchanged().len() == 9);
}

/// Whether two rows differ at column `c`: in the trimmed cell, or because
/// one of them ends before it.
pub open spec fn cell_differs(ra: Seq<Seq<char>>, rb: Seq<Seq<char>>, c: int) -> bool {
    c >= ra.len() || c >= rb.len() || trimmed(ra[c]) != trimmed(rb[c])
}

/// The ids of the columns below `n` at which two rows differ, ascending.
pub open spec fn differing(ra: Seq<Seq<char>>, rb: Seq<Seq<char>>, n: int) -> Seq<Seq<char>>
    decreases n,
{
    if n <= 0 {
        Seq::empty()
    } else {
        let before = differing(ra, rb, n - 1);
        if cell_differs(ra, rb, n - 1) {
            before.push(column_id((n - 1) as nat))
        } else {
            before
        }
    }
}

/// `acc` after the check of one role: where the two rows read differently
/// under `role`, the columns that `a` assigns to it count as changed.
pub open spec fn after_role(
    a: Table,
    i: int,
    b: Table,
    j: int,
    role: Seq<char>,
    acc: Seq<Seq<char>>,
) -> Seq<Seq<char>> {
    if a.first_value(i, role) != b.first_value(j, role) {
        extended(acc, role_ids(a.roles, role))
    } else {
        acc
    }
}

/// The columns in which row `i` of `a` and row `j` of `b` differ: first by
/// position, then by role.
pub open spec fn changed_columns(a: Table, i: int, b: Table, j: int) -> Seq<Seq<char>> {
    let ra = a.rows[i];
    let rb = b.rows[j];
    let n = if ra.len() >= rb.len() {
        ra.len()
    } else {
        rb.len()
    };
    let by_position = differing(ra, rb, n as int);
    let with_part = after_role(a, i, b, j, role_part_no(), by_position);
    let with_maker = after_role(a, i, b, j, role_manufacturer(), with_part);
    after_role(a, i, b, j, role_value(), with_maker)
}

/// What the comparison reports for row `i` of `a`, whose key is not empty.
pub open spec fn change_of_a(a: Table, b: Table, i: int) -> Change {
    match b.row_of(a.key(i)) {
        Some(j) => {
            let columns = changed_columns(a, i, b, j);
            Change {
                status: if columns.len() == 0 {
                    status_unchanged()
                } else {
                    status_modified()
                },
                a_index: Some(i as usize),
                b_index: Some(j as usize),
                key: a.key(i),
                changed_columns: columns,
            }
        },
        None => Change {
            status: status_removed(),
            a_index: Some(i as usize),
            b_index: None,
            key: a.key(i),
            changed_columns: Seq::empty(),
        },
    }
}

/// What the comparison reports for row `j` of `b` when no row of `a` has
/// its key.
pub open spec fn change_of_b(b: Table, j: int) -> Change {
    Change {
        status: status_added(),
        a_index: None,
        b_index: Some(j as usize),
        key: b.key(j),
        changed_columns: Seq::empty(),
    }
}

/// The reports for the first `n` rows of `a`, in row order. A row without a
/// key is passed over.
pub open spec fn changes_of_a(a: Table, b: Table, n: int) -> Seq<Change>
    decreases n,
{
    if n <= 0 {
        Seq::empty()
    } else {
        let before = changes_of_a(a, b, n - 1);
        if a.key(n - 1).len() == 0 {
            before
        } else {
            before.push(change_of_a(a, b, n - 1))
        }
    }
}

/// The reports for those of the first `n` rows of `b` that have a key which
/// no row of `a` has, in row order.
pub open spec fn changes_of_b(a: Table, b: Table, n: int) -> Seq<Change>
    decreases n,
{
    if n <= 0 {
        Seq::empty()
    } else {
        let before = changes_of_b(a, b, n - 1);
        if b.key(n - 1).len() == 0 || a.row_of(b.key(n - 1)) is Some {
            before
        } else {
            before.push(change_of_b(b, n - 1))
        }
    }
}

/// The comparison of `a` with `b`: the reports for the rows of `a`, then
/// those for the rows that only `b` has.
pub open spec fn comparison(a: Table, b: Table) -> Seq<Change> {
    changes_of_a(a, b, a.rows.len() as int) + changes_of_b(a, b, b.rows.len() as int)
}

/// For every key, the first row of `t` that has it.
fn key_index(t: &ParseResult) -> (m: StringHashMap<usize>)
    ensures
        forall|k: Seq<char>|
            #![trigger m@.contains_key(k)]
            #![trigger t@.row_of(k)]
            k.len() > 0 ==> (m@.contains_key(k) <==> t@.row_of(k) is Some),
        forall|k: Seq<char>| #[trigger]
            m@.contains_key(k) ==> k.len() > 0 && m@[k] < t.rows.len() && t@.row_of(k) == Some(
                m@[k] as int,
            ),
{
    let mut m: StringHashMap<usize> = StringHashMap::new();
    let mut i: usize = 0;
    while i < t.rows.len()
        invariant
            i <= t.rows.len(),
            t@.rows.len() == t.rows.len(),
            forall|k: Seq<char>|
                #![trigger m@.contains_key(k)]
                #![trigger t@.first_row(k, i as int)]
                k.len() > 0 ==> (m@.contains_key(k) <==> t@.first_row(k, i as int) is Some),
            forall|k: Seq<char>| #[trigger]
                m@.contains_key(k) ==> k.len() > 0 && m@[k] < i && t@.first_row(k, i as int)
                    == Some(m@[k] as int),
        decreases t.rows.len() - i,
    {
        let key = t.get_ref(i);
        if !key.as_str().is_empty() && !m.contains_key(key.as_str()) {
            m.insert(key, i);
        }
        i += 1;
    }
    m
}

/// Appends to `columns` each column of `t` under `role` that is not among
/// them yet.
fn add_role_columns(t: &ParseResult, role: &str, columns: &mut Vec<String>)
    ensures
        views(final(columns)@) == extended(views(old(columns)@), role_ids(t@.roles, role@)),
{
    let ids = t.column_ids(role);
    extend_unique(columns, &ids);
}

/// Compares row `idx_a` of `parse_a` with row `idx_b` of `parse_b` and
/// returns the status and the columns that differ.
fn compare_rows(parse_a: &ParseResult, idx_a: usize, parse_b: &ParseResult, idx_b: usize) -> (r: (
    String,
    Vec<String>,
))
    requires
        idx_a < parse_a.rows.len(),
        idx_b < parse_b.rows.len(),
    ensures
        views(r.1@) == changed_columns(parse_a@, idx_a as int, parse_b@, idx_b as int),
        r.0@ == if r.1.len() == 0 {
            status_unchanged()
        } else {
            status_modified()
        },
{
    let row_a = &parse_a.rows[idx_a];
    let row_b = &parse_b.rows[idx_b];
    let ghost ra = views(row_a@);
    let ghost rb = views(row_b@);
    let shorter = if row_a.len() <= row_b.len() {
        row_a.len()
    } else {
        row_b.len()
    };
    let longer = if row_a.len() >= row_b.len() {
        row_a.len()
    } else {
        row_b.len()
    };
    let mut columns: Vec<String> = Vec::new();
    proof {
        assert(views(columns@) =~= differing(ra, rb, 0));
    }
    let mut c: usize = 0;
    while c < longer
        invariant
            c <= longer,
            shorter <= longer,
            shorter == row_a.len() || shorter == row_b.len(),
            shorter <= row_a.len(),
            shorter <= row_b.len(),
            longer == row_a.len() || longer == row_b.len(),
            ra == views(row_a@),
            rb == views(row_b@),
            views(columns@) == differing(ra, rb, c as int),
        decreases longer - c,
    {
        let ghost before = views(columns@);
        let differs = if c < shorter {
            let cell_a = trim(row_a[c].as_str());
            let cell_b = trim(row_b[c].as_str());
            cell_a != cell_b
        } else {
            true
        };
        if differs {
            columns.push(make_column_id(c));
            proof {
                assert(views(columns@) =~= before.push(column_id(c as nat)));
            }
        }
        c += 1;
    }
    let part_a = parse_a.get_part_no(idx_a);
    let part_b = parse_b.get_part_no(idx_b);
    if part_a != part_b {
        add_role_columns(parse_a, "part_no", &mut columns);
    }
    let maker_a = parse_a.get_manufacturer(idx_a);
    let maker_b = parse_b.get_manufacturer(idx_b);
    if maker_a != maker_b {
        add_role_columns(parse_a, "manufacturer", &mut columns);
    }
    let value_a = parse_a.get_value(idx_a);
    let value_b = parse_b.get_value(idx_b);
    if value_a != value_b {
        add_role_columns(parse_a, "value", &mut columns);
    }
    let status = if columns.len() == 0 {
        "unchanged".to_owned()
    } else {
        "modified".to_owned()
    };
    (status, columns)
}

/// Compares two tables by join key.
///
/// Every row of `parse_a` with a key is reported, in row order, as
/// `unchanged`, `modified` or `removed`; then every row of `parse_b` whose
/// key no row of `parse_a` has is reported as `added`. Where several rows
/// of a table share a key, the first of them stands for the key. Rows
/// without a key are not reported.
pub fn compare_boms(parse_a: &ParseResult, parse_b: &ParseResult) -> (r: Vec<DiffRow>)
    ensures
        change_views(r@) == comparison(parse_a@, parse_b@),
{
    let index_a = key_index(parse_a);
    let index_b = key_index(parse_b);
    let ghost a = parse_a@;
    let ghost b = parse_b@;
    let mut diffs: Vec<DiffRow> = Vec::new();
    proof {
        assert(change_views(diffs@) =~= changes_of_a(a, b, 0));
    }
    let mut i: usize = 0;
    while i < parse_a.rows.len()
        invariant
            i <= parse_a.rows.len(),
            a == parse_a@,
            b == parse_b@,
            a.rows.len() == parse_a.rows.len(),
            b.rows.len() == parse_b.rows.len(),
            forall|k: Seq<char>|
                #![trigger index_b@.contains_key(k)]
                #![trigger b.row_of(k)]
                k.len() > 0 ==> (index_b@.contains_key(k) <==> b.row_of(k) is Some),
            forall|k: Seq<char>| #[trigger]
                index_b@.contains_key(k) ==> k.len() > 0 && index_b@[k] < parse_b.rows.len()
                    && b.row_of(k) == Some(index_b@[k] as int),
            change_views(diffs@) == changes_of_a(a, b, i as int),
        decreases parse_a.rows.len() - i,
    {
        let key = parse_a.get_ref(i);
        if !key.as_str().is_empty() {
            let ghost before = change_views(diffs@);
            let found = match index_b.get(key.as_str()) {
                Some(j) => Some(*j),
                None => None,
            };
            let row = match found {
                Some(j) => {
                    let (status, columns) = compare_rows(parse_a, i, parse_b, j);
                    DiffRow {
                        status,
                        a_index: Some(i),
                        b_index: Some(j),
                        ref_value: key,
                        changed_columns: columns,
                    }
                },
                None => DiffRow {
                    status: "removed".to_owned(),
                    a_index: Some(i),
                    b_index: None,
                    ref_value: key,
                    changed_columns: Vec::new(),
                },
            };
            proof {
                assert(views(Seq::<String>::empty()) =~= Seq::<Seq<char>>::empty());
                assert(row@ == change_of_a(a, b, i as int));
            }
            diffs.push(row);
            proof {
                assert(change_views(diffs@) =~= before.push(change_of_a(a, b, i as int)));
            }
        }
        i += 1;
    }
    let ghost first_part = change_views(diffs@);
    proof {
        assert(first_part + changes_of_b(a, b, 0) =~= first_part);
    }
    let mut j: usize = 0;
    while j < parse_b.rows.len()
        invariant
            j <= parse_b.rows.len(),
            a == parse_a@,
            b == parse_b@,
            b.rows.len() == parse_b.rows.len(),
            forall|k: Seq<char>|
                #![trigger index_a@.contains_key(k)]
                #![trigger a.row_of(k)]
                k.len() > 0 ==> (index_a@.contains_key(k) <==> a.row_of(k) is Some),
            change_views(diffs@) == first_part + changes_of_b(a, b, j as int),
        decreases parse_b.rows.len() - j,
    {
        let key = parse_b.get_ref(j);
        if !key.as_str().is_empty() && !index_a.contains_key(key.as_str()) {
            let ghost before = change_views(diffs@);
            let row = DiffRow {
                status: "added".to_owned(),
                a_index: None,
                b_index: Some(j),
                ref_value: key,
                changed_columns: Vec::new(),
            };
            proof {
                assert(views(Seq::<String>::empty()) =~= Seq::<Seq<char>>::empty());
                assert(row@ == change_of_b(b, j as int));
            }
            diffs.push(row);
            proof {
                assert(change_views(diffs@) =~= before.push(change_of_b(b, j as int)));
                assert(before.push(change_of_b(b, j as int)) =~= first_part + changes_of_b(
                    a,
                    b,
                    j as int,
                ).push(change_of_b(b, j as int)));
            }
        }
        j += 1;
    }
    diffs
}

/// Report `x` of the first `n` rows of `a` is the report for row `i`.
pub open spec fn reports_row_of_a(a: Table, b: Table, n: int, x: int, i: int) -> bool {
    &&& 0 <= i < n
    &&& 0 <= x < changes_of_a(a, b, n).len()
    &&& a.key(i).len() > 0
    &&& changes_of_a(a, b, n)[x] == change_of_a(a, b, i)
}

/// Report `x` of the first `n` rows of `b` is the report for row `j`.
pub open spec fn reports_row_of_b(a: Table, b: Table, n: int, x: int, j: int) -> bool {
    &&& 0 <= j < n
    &&& 0 <= x < changes_of_b(a, b, n).len()
    &&& b.key(j).len() > 0
    &&& a.row_of(b.key(j)) is None
    &&& changes_of_b(a, b, n)[x] == change_of_b(b, j)
}

/// Report `x` of the first `n` rows of `a` belongs to one of those rows.
pub open spec fn has_row_of_a(a: Table, b: Table, n: int, x: int) -> bool {
    exists|i: int| #[trigger] reports_row_of_a(a, b, n, x, i)
}

/// Row `i` of `a` has its report among those of the first `n` rows.
pub open spec fn has_report_of_a(a: Table, b: Table, n: int, i: int) -> bool {
    exists|x: int| #[trigger] reports_row_of_a(a, b, n, x, i)
}

/// Report `x` of the first `n` rows of `b` belongs to one of those rows.
pub open spec fn has_row_of_b(a: Table, b: Table, n: int, x: int) -> bool {
    exists|j: int| #[trigger] reports_row_of_b(a, b, n, x, j)
}

/// Row `j` of `b` has its report among those of the first `n` rows.
pub open spec fn has_report_of_b(a: Table, b: Table, n: int, j: int) -> bool {
    exists|x: int| #[trigger] reports_row_of_b(a, b, n, x, j)
}

/// Every report for the rows of `a` belongs to a row with a key, and every
/// such row has its report.
pub proof fn lemma_changes_of_a(a: Table, b: Table, n: int)
    ensures
        forall|x: int|
            0 <= x < changes_of_a(a, b, n).len() ==> #[trigger] has_row_of_a(a, b, n, x),
        forall|i: int|
            0 <= i < n && a.key(i).len() > 0 ==> #[trigger] has_report_of_a(a, b, n, i),
    decreases n,
{
    if n > 0 {
        lemma_changes_of_a(a, b, n - 1);
        let before = changes_of_a(a, b, n - 1);
        let now = changes_of_a(a, b, n);
        assert forall|x: int| 0 <= x < now.len() implies #[trigger] has_row_of_a(
            a,
            b,
            n,
            x,
        ) by {
            if x < before.len() {
                assert(has_row_of_a(a, b, n - 1, x));
                let i = choose|i: int| #[trigger] reports_row_of_a(a, b, n - 1, x, i);
                assert(reports_row_of_a(a, b, n, x, i));
            } else {
                assert(reports_row_of_a(a, b, n, x, n - 1));
            }
        }
        assert forall|i: int| 0 <= i < n && a.key(i).len() > 0 implies #[trigger] has_report_of_a(
            a,
            b,
            n,
            i,
        ) by {
            if i < n - 1 {
                assert(has_report_of_a(a, b, n - 1, i));
                let x = choose|x: int| #[trigger] reports_row_of_a(a, b, n - 1, x, i);
                assert(reports_row_of_a(a, b, n, x, i));
            } else {
                assert(reports_row_of_a(a, b, n, now.len() - 1, i));
            }
        }
    }
}

/// Every report for the rows that only `b` has belongs to a row of `b`
/// with a key that no row of `a` has, and every such row has its report.
pub proof fn lemma_changes_of_b(a: Table, b: Table, n: int)
    ensures
        forall|x: int|
            0 <= x < changes_of_b(a, b, n).len() ==> #[trigger] has_row_of_b(a, b, n, x),
        forall|j: int|
            0 <= j < n && b.key(j).len() > 0 && a.row_of(b.key(j)) is None
                ==> #[trigger] has_report_of_b(a, b, n, j),
    decreases n,
{
    if n > 0 {
        lemma_changes_of_b(a, b, n - 1);
        let before = changes_of_b(a, b, n - 1);
        let now = changes_of_b(a, b, n);
        assert forall|x: int| 0 <= x < now.len() implies #[trigger] has_row_of_b(
            a,
            b,
            n,
            x,
        ) by {
            if x < before.len() {
                assert(has_row_of_b(a, b, n - 1, x));
                let j = choose|j: int| #[trigger] reports_row_of_b(a, b, n - 1, x, j);
                assert(reports_row_of_b(a, b, n, x, j));
            } else {
                assert(reports_row_of_b(a, b, n, x, n - 1));
            }
        }
        assert forall|j: int|
            0 <= j < n && b.key(j).len() > 0 && a.row_of(b.key(j)) is None implies #[trigger]
            has_report_of_b(a, b, n, j) by {
            if j < n - 1 {
                assert(has_report_of_b(a, b, n - 1, j));
                let x = choose|x: int| #[trigger] reports_row_of_b(a, b, n - 1, x, j);
                assert(reports_row_of_b(a, b, n, x, j));
            } else {
                assert(reports_row_of_b(a, b, n, now.len() - 1, j));
            }
        }
    }
}

/// The keys that `changes` reports under `status`.
pub open spec fn keys_with_status(changes: Seq<Change>, status: Seq<char>) -> Set<Seq<char>> {
    Set::new(
        |k: Seq<char>|
            exists|x: int|
                0 <= x < changes.len() && (#[trigger] changes[x]).status == status && changes[x].key
                    == k,
    )
}

/// The keys that only `b` has: not empty, on a row of `b`, on no row of `a`.
pub open spec fn keys_only_in(b: Table, a: Table) -> Set<Seq<char>> {
    Set::new(|k: Seq<char>| k.len() > 0 && b.row_of(k) is Some && a.row_of(k) is None)
}

/// The keys reported as `added` are those that only `b` has, and the keys
/// reported as `removed` are those that only `a` has.
pub proof fn lemma_reported_keys(a: Table, b: Table)
    ensures
        keys_with_status(comparison(a, b), status_added()) == keys_only_in(b, a),
        keys_with_status(comparison(a, b), status_removed()) == keys_only_in(a, b),
{
    lemma_statuses_differ();
    let na = a.rows.len() as int;
    let nb = b.rows.len() as int;
    let first = changes_of_a(a, b, na);
    let second = changes_of_b(a, b, nb);
    let all = comparison(a, b);
    lemma_changes_of_a(a, b, na);
    lemma_changes_of_b(a, b, nb);
    assert forall|k: Seq<char>|
        keys_with_status(all, status_added()).contains(k) == keys_only_in(b, a).contains(k) by {
        if keys_with_status(all, status_added()).contains(k) {
            let x = choose|x: int|
                0 <= x < all.len() && (#[trigger] all[x]).status == status_added() && all[x].key
                    == k;
            if x < first.len() {
                assert(all[x] == first[x]);
                assert(has_row_of_a(a, b, na, x));
                let i = choose|i: int| #[trigger] reports_row_of_a(a, b, na, x, i);
                assert(false);
            } else {
                assert(all[x] == second[x - first.len()]);
                assert(has_row_of_b(a, b, nb, x - first.len()));
                let j = choose|j: int| #[trigger]
                    reports_row_of_b(a, b, nb, x - first.len(), j);
                lemma_first_row(b, k, nb);
            }
        }
        if keys_only_in(b, a).contains(k) {
            lemma_first_row(b, k, nb);
            let j = b.row_of(k)->0;
            assert(has_report_of_b(a, b, nb, j));
            let y = choose|y: int| #[trigger] reports_row_of_b(a, b, nb, y, j);
            assert(all[first.len() + y] == second[y]);
        }
    }
    assert(keys_with_status(all, status_added()) =~= keys_only_in(b, a));
    assert forall|k: Seq<char>|
        keys_with_status(all, status_removed()).contains(k) == keys_only_in(a, b).contains(k) by {
        if keys_with_status(all, status_removed()).contains(k) {
            let x = choose|x: int|
                0 <= x < all.len() && (#[trigger] all[x]).status == status_removed()
                    && all[x].key == k;
            if x < first.len() {
                assert(all[x] == first[x]);
                assert(has_row_of_a(a, b, na, x));
                let i = choose|i: int| #[trigger] reports_row_of_a(a, b, na, x, i);
                lemma_first_row(a, k, na);
            } else {
                assert(all[x] == second[x - first.len()]);
                assert(has_row_of_b(a, b, nb, x - first.len()));
                let j = choose|j: int| #[trigger]
                    reports_row_of_b(a, b, nb, x - first.len(), j);
                assert(false);
            }
        }
        if keys_only_in(a, b).contains(k) {
            lemma_first_row(a, k, na);
            let i = a.row_of(k)->0;
            assert(has_report_of_a(a, b, na, i));
            let y = choose|y: int| #[trigger] reports_row_of_a(a, b, na, y, i);
            assert(all[y] == first[y]);
        }
    }
    assert(keys_with_status(all, status_removed()) =~= keys_only_in(a, b));
}

/// Key symmetry: the keys reported as added when `a` is compared with `b`
/// are the keys reported as removed when `b` is compared with `a`, and the
/// other way round.
pub proof fn law_key_symmetry(a: Table, b: Table)
    ensures
        keys_with_status(comparison(a, b), status_added()) == keys_with_status(
            comparison(b, a),
            status_removed(),
        ),
        keys_with_status(comparison(a, b), status_removed()) == keys_with_status(
            comparison(b, a),
            status_added(),
        ),
{
    lemma_reported_keys(a, b);
    lemma_reported_keys(b, a);
}

/// Two rows agree: they have the same length and, cell by cell, the same
/// trimmed content.
pub open spec fn same_cells(ra: Seq<Seq<char>>, rb: Seq<Seq<char>>) -> bool {
    ra.len() == rb.len() && forall|c: int|
        0 <= c < ra.len() ==> trimmed(#[trigger] ra[c]) == trimmed(rb[c])
}

/// Rows that agree differ at no position.
pub proof fn lemma_same_cells_differ_nowhere(ra: Seq<Seq<char>>, rb: Seq<Seq<char>>, n: int)
    requires
        same_cells(ra, rb),
        n <= ra.len(),
    ensures
        differing(ra, rb, n) == Seq::<Seq<char>>::empty(),
    decreases n,
{
    if n > 0 {
        lemma_same_cells_differ_nowhere(ra, rb, n - 1);
    }
}

/// Rows that agree read the same under any columns.
pub proof fn lemma_same_cells_same_values(
    ra: Seq<Seq<char>>,
    rb: Seq<Seq<char>>,
    ids: Seq<Seq<char>>,
)
    requires
        same_cells(ra, rb),
    ensures
        picked(ra, ids) == picked(rb, ids),
    decreases ids.len(),
{
    if ids.len() > 0 {
        lemma_same_cells_same_values(ra, rb, ids.take(ids.len() - 1));
        match column_index(ids[ids.len() - 1]) {
            Some(i) => {
                if i < ra.len() {
                    lemma_blank_characterised(ra[i as int]);
                    lemma_blank_characterised(rb[i as int]);
                }
            },
            None => {},
        }
    }
}

/// Comparing a table with itself reports every row with a key as
/// `unchanged`, with no changed column, and reports nothing else. This
/// holds of a table in which the rows that share a key agree; where a row
/// differs from an earlier row with its key, it is that earlier row which
/// stands for the key, and the later one is reported as `modified`.
pub proof fn law_compare_with_itself(a: Table)
    requires
        forall|i: int, j: int|
            0 <= i < j < a.rows.len() && a.key(i).len() > 0 && #[trigger] a.key(i)
                == #[trigger] a.key(j) ==> same_cells(a.rows[i], a.rows[j]),
    ensures
        forall|x: int|
            0 <= x < comparison(a, a).len() ==> {
                &&& (#[trigger] comparison(a, a)[x]).status == status_unchanged()
                &&& comparison(a, a)[x].changed_columns.len() == 0
                &&& comparison(a, a)[x].a_index is Some
                &&& comparison(a, a)[x].b_index is Some
            },
{
    let n = a.rows.len() as int;
    let first = changes_of_a(a, a, n);
    lemma_changes_of_a(a, a, n);
    lemma_no_row_only_in_itself(a, n);
    assert(comparison(a, a) =~= first);
    assert forall|x: int| 0 <= x < first.len() implies {
        &&& (#[trigger] first[x]).status == status_unchanged()
        &&& first[x].changed_columns.len() == 0
        &&& first[x].a_index is Some
        &&& first[x].b_index is Some
    } by {
        assert(has_row_of_a(a, a, n, x));
        let i = choose|i: int| #[trigger] reports_row_of_a(a, a, n, x, i);
        lemma_first_row(a, a.key(i), n);
        let j = a.row_of(a.key(i))->0;
        assert(j <= i) by {
            if j > i {
                assert(a.key(i) != a.key(i));
            }
        }
        let ra = a.rows[i];
        let rb = a.rows[j];
        assert(same_cells(rb, ra)) by {
            if j < i {
                assert(a.key(j) == a.key(i));
            }
        }
        assert(same_cells(ra, rb));
        lemma_same_cells_differ_nowhere(ra, rb, ra.len() as int);
        lemma_same_cells_same_values(ra, rb, role_ids(a.roles, role_part_no()));
        lemma_same_cells_same_values(ra, rb, role_ids(a.roles, role_manufacturer()));
        lemma_same_cells_same_values(ra, rb, role_ids(a.roles, role_value()));
        assert(changed_columns(a, i, a, j) == Seq::<Seq<char>>::empty());
    }
}

/// A table has no key that it lacks.
pub proof fn lemma_no_row_only_in_itself(a: Table, n: int)
    requires
        n <= a.rows.len(),
    ensures
        changes_of_b(a, a, n) == Seq::<Change>::empty(),
    decreases n,
{
    if n > 0 {
        lemma_no_row_only_in_itself(a, n - 1);
        lemma_first_row(a, a.key(n - 1), a.rows.len() as int);
    }
}

} // verus!
