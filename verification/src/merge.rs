//! Merging of an overlay table into a base table, matched by join key.

use crate::models::{copy_columns, copy_roles, copy_row, grid, AppError, ParseResult, Table};
use crate::text::{blank, is_blank, views};
use vstd::hash_map::StringHashMap;
use vstd::prelude::*;

verus! {

/// One more than the position of the last of the first `n` cells of `row`
/// that is not blank; zero when all of them are.
pub open spec fn reach(row: Seq<Seq<char>>, n: int) -> int
    decreases n,
{
    if n <= 0 {
        0
    } else if n <= row.len() && !is_blank(row[n - 1]) {
        n
    } else {
        reach(row, n - 1)
    }
}

/// The base row after the first `n` cells of the overlay row were laid
/// over it: a cell of the overlay that is not blank replaces what is under
/// it, a blank one leaves it, and the row grows as far as the overlay has
/// something to put, with empty cells in between.
pub open spec fn overlaid(base: Seq<Seq<char>>, over: Seq<Seq<char>>, n: int) -> Seq<Seq<char>> {
    let len = if reach(over, n) > base.len() {
        reach(over, n)
    } else {
        base.len() as int
    };
    Seq::new(
        len as nat,
        |c: int|
            if c < n && c < over.len() && !is_blank(over[c]) {
                over[c]
            } else if c < base.len() {
                base[c]
            } else {
                Seq::empty()
            },
    )
}

/// The base row with the whole overlay row laid over it.
pub open spec fn merged_row(base: Seq<Seq<char>>, over: Seq<Seq<char>>) -> Seq<Seq<char>> {
    overlaid(base, over, over.len() as int)
}

/// The reach lies within the cells looked at, behind it every cell is
/// blank, and the cell before it is not.
pub proof fn lemma_reach_bounds(row: Seq<Seq<char>>, n: int)
    ensures
        0 <= reach(row, n),
        n >= 0 ==> reach(row, n) <= n,
        reach(row, n) <= row.len() || n <= 0,
        forall|c: int| reach(row, n) <= c < n && c < row.len() ==> is_blank(#[trigger] row[c]),
        reach(row, n) > 0 ==> !is_blank(row[reach(row, n) - 1]),
    decreases n,
{
    if n > 0 {
        lemma_reach_bounds(row, n - 1);
    }
}

/// Lays `over` over `base`.
pub fn merge_row(base: &Vec<String>, over: &Vec<String>) -> (r: Vec<String>)
    ensures
        views(r@) == merged_row(views(base@), views(over@)),
{
    let mut out = copy_row(base);
    let ghost sb = views(base@);
    let ghost so = views(over@);
    proof {
        assert(views(out@) =~= overlaid(sb, so, 0));
    }
    let mut c: usize = 0;
    while c < over.len()
        invariant
            c <= over.len(),
            sb == views(base@),
            so == views(over@),
            views(out@) == overlaid(sb, so, c as int),
        decreases over.len() - c,
    {
        let ghost before = views(out@);
        proof {
            lemma_reach_bounds(so, c as int);
        }
        if !blank(over[c].as_str()) {
            if c < out.len() {
                out.set(c, over[c].clone());
            } else {
                while out.len() < c
                    invariant
                        before.len() <= out.len() <= c,
                        forall|k: int| 0 <= k < before.len() ==> (#[trigger] out@[k])@ == before[k],
                        forall|k: int|
                            before.len() <= k < out.len() ==> (#[trigger] out@[k])@ == Seq::<
                                char,
                            >::empty(),
                    decreases c - out.len(),
                {
                    out.push(String::new());
                }
                out.push(over[c].clone());
            }
        }
        proof {
            let next = overlaid(sb, so, c + 1);
            assert(so[c as int] == over@[c as int]@);
            assert(reach(so, c + 1) == if is_blank(so[c as int]) {
                reach(so, c as int)
            } else {
                c + 1
            });
            assert(before.len() == overlaid(sb, so, c as int).len());
            assert(views(out@).len() == next.len());
            assert forall|k: int| 0 <= k < next.len() implies views(out@)[k] == next[k] by {
                if k < before.len() {
                    assert(before[k] == overlaid(sb, so, c as int)[k]);
                }
            }
            assert(views(out@) =~= next);
        }
        c += 1;
    }
    out
}

impl Table {
    /// How many of the first `n` rows have the key `k`.
    pub open spec fn count_key(self, k: Seq<char>, n: int) -> nat
        decreases n,
    {
        if n <= 0 {
            0
        } else {
            self.count_key(k, n - 1) + if self.key(n - 1) == k {
                1nat
            } else {
                0nat
            }
        }
    }

    /// How many rows before row `r` have its key.
    pub open spec fn rank(self, r: int) -> nat {
        self.count_key(self.key(r), r)
    }

    /// The one of the first `n` rows that has the key `k` and `r` rows with
    /// that key before it.
    pub open spec fn ranked_row(self, k: Seq<char>, r: nat, n: int) -> Option<int>
        decreases n,
    {
        if n <= 0 {
            None
        } else {
            match self.ranked_row(k, r, n - 1) {
                Some(j) => Some(j),
                None => if self.key(n - 1) == k && self.count_key(k, n - 1) == r {
                    Some(n - 1)
                } else {
                    None
                },
            }
        }
    }
}

/// The overlay row that row `i` of the base takes: the rows of one key pair
/// off in order, the first of the base with the first of the overlay, the
/// second with the second. A row without a key takes none.
pub open spec fn partner(base: Table, overlay: Table, i: int) -> Option<int> {
    if base.key(i).len() == 0 {
        None
    } else {
        overlay.ranked_row(base.key(i), base.rank(i), overlay.rows.len() as int)
    }
}

/// Whether row `j` of the overlay is taken by a row of the base.
pub open spec fn taken(base: Table, overlay: Table, j: int) -> bool {
    overlay.key(j).len() > 0 && overlay.rank(j) < base.count_key(
        overlay.key(j),
        base.rows.len() as int,
    )
}

/// Row `i` of the merged table, for a row `i` of the base.
pub open spec fn updated_row(base: Table, overlay: Table, i: int) -> Seq<Seq<char>> {
    match partner(base, overlay, i) {
        Some(j) => merged_row(base.rows[i], overlay.rows[j]),
        None => base.rows[i],
    }
}

/// Those of the first `n` rows of the overlay that no row of the base
/// takes, in order.
pub open spec fn leftover(base: Table, overlay: Table, n: int) -> Seq<Seq<Seq<char>>>
    decreases n,
{
    if n <= 0 {
        Seq::empty()
    } else {
        let before = leftover(base, overlay, n - 1);
        if taken(base, overlay, n - 1) {
            before
        } else {
            before.push(overlay.rows[n - 1])
        }
    }
}

/// The rows of the merged table: the rows of the base, each with its
/// partner laid over it, then the rows of the overlay that were not taken.
pub open spec fn merged_rows(base: Table, overlay: Table) -> Seq<Seq<Seq<char>>> {
    Seq::new(base.rows.len(), |i: int| updated_row(base, overlay, i)) + leftover(
        base,
        overlay,
        overlay.rows.len() as int,
    )
}

/// The merge of `overlay` into `base`: the merged rows under the headers,
/// columns, roles and column order of the base, numbered from 1, with no
/// diagnostics.
pub open spec fn merged(base: Table, overlay: Table) -> Table {
    let rows = merged_rows(base, overlay);
    Table {
        rows,
        roles: base.roles,
        column_order: base.column_order,
        headers: base.headers,
        columns: base.columns,
        row_numbers: Seq::new(rows.len(), |i: int| (i + 1) as usize),
        diagnostics: Seq::empty(),
    }
}

/// A longer prefix holds no fewer rows of a key.
pub proof fn lemma_count_grows(t: Table, k: Seq<char>, n: int, m: int)
    requires
        n <= m,
    ensures
        t.count_key(k, n) <= t.count_key(k, m),
    decreases m - n,
{
    if n < m {
        lemma_count_grows(t, k, n, m - 1);
    }
}

/// A row with the key `k` is counted in every prefix that reaches past it.
pub proof fn lemma_count_after(t: Table, k: Seq<char>, j: int, m: int)
    requires
        0 <= j < m,
        t.key(j) == k,
    ensures
        t.count_key(k, j) < t.count_key(k, m),
{
    lemma_count_grows(t, k, j + 1, m);
}

/// `ranked_row` finds the row with the key and the rank, and finds none
/// only when there is none.
pub proof fn lemma_ranked_row(t: Table, k: Seq<char>, r: nat, n: int)
    ensures
        match t.ranked_row(k, r, n) {
            Some(j) => 0 <= j < n && t.key(j) == k && t.count_key(k, j) == r,
            None => forall|j: int|
                0 <= j < n && t.key(j) == k ==> #[trigger] t.count_key(k, j) != r,
        },
    decreases n,
{
    if n > 0 {
        lemma_ranked_row(t, k, r, n - 1);
    }
}

/// A row with the key and the rank is the one that `ranked_row` finds.
pub proof fn lemma_ranked_row_is(t: Table, k: Seq<char>, r: nat, n: int, j: int)
    requires
        0 <= j < n,
        t.key(j) == k,
        t.count_key(k, j) == r,
    ensures
        t.ranked_row(k, r, n) == Some(j),
{
    lemma_ranked_row(t, k, r, n);
    let found = t.ranked_row(k, r, n)->0;
    if found < j {
        lemma_count_after(t, k, found, j);
    } else if j < found {
        lemma_count_after(t, k, j, found);
    }
}

/// No row has a rank as large as the number of rows with its key.
pub proof fn lemma_no_row_beyond(t: Table, k: Seq<char>, r: nat, n: int)
    requires
        r >= t.count_key(k, n),
    ensures
        t.ranked_row(k, r, n) is None,
{
    lemma_ranked_row(t, k, r, n);
    if t.ranked_row(k, r, n) is Some {
        lemma_count_after(t, k, t.ranked_row(k, r, n)->0, n);
    }
}

/// The queues of the first `n` rows of `t`: every key with a row has a
/// slot of its own, and the queue in that slot holds the rows with the key,
/// in row order.
pub closed spec fn queues_hold(
    t: Table,
    slots: Map<Seq<char>, usize>,
    queues: Seq<Vec<usize>>,
    n: int,
) -> bool {
    &&& forall|k: Seq<char>| #[trigger]
        slots.contains_key(k) ==> k.len() > 0 && slots[k] < queues.len()
    &&& forall|k1: Seq<char>, k2: Seq<char>|
        #![trigger slots.contains_key(k1), slots.contains_key(k2)]
        slots.contains_key(k1) && slots.contains_key(k2) && k1 != k2 ==> slots[k1] != slots[k2]
    &&& forall|k: Seq<char>|
        #![trigger slots.contains_key(k)]
        #![trigger t.count_key(k, n)]
        k.len() > 0 ==> (slots.contains_key(k) <==> t.count_key(k, n) > 0)
    &&& forall|k: Seq<char>| #[trigger]
        slots.contains_key(k) ==> queues[slots[k] as int]@.len() == t.count_key(k, n)
    &&& forall|k: Seq<char>, r: int|
        #![trigger slots.contains_key(k), queues[slots[k] as int]@[r]]
        slots.contains_key(k) && 0 <= r < queues[slots[k] as int]@.len() ==> {
            let j = queues[slots[k] as int]@[r];
            0 <= j < n && t.key(j as int) == k && t.count_key(k, j as int) == r
        }
}

/// Queues the rows of `overlay` by key.
fn queue_rows(overlay: &ParseResult) -> (r: (StringHashMap<usize>, Vec<Vec<usize>>))
    ensures
        queues_hold(overlay@, r.0@, r.1@, overlay.rows.len() as int),
{
    let mut slots: StringHashMap<usize> = StringHashMap::new();
    let mut queues: Vec<Vec<usize>> = Vec::new();
    let ghost t = overlay@;
    let mut j: usize = 0;
    while j < overlay.rows.len()
        invariant
            j <= overlay.rows.len(),
            t == overlay@,
            queues_hold(t, slots@, queues@, j as int),
        decreases overlay.rows.len() - j,
    {
        let key = overlay.get_ref(j);
        let ghost k = key@;
        let ghost old_slots = slots@;
        let ghost old_queues = queues@;
        if !key.as_str().is_empty() {
            let slot = match slots.get(key.as_str()) {
                Some(q) => Some(*q),
                None => None,
            };
            match slot {
                Some(q) => {
                    queues[q].push(j);
                    proof {
                        assert forall|k2: Seq<char>, r: int|
                            #![trigger slots@.contains_key(k2), queues@[slots@[k2] as int]@[r]]
                            slots@.contains_key(k2) && 0 <= r < queues@[slots@[k2] as int]@.len()
                            implies {
                            let j2 = queues@[slots@[k2] as int]@[r];
                            0 <= j2 < j + 1 && t.key(j2 as int) == k2 && t.count_key(k2, j2 as int)
                                == r
                        } by {
                            let s2 = slots@[k2] as int;
                            if k2 == k {
                                if r < old_queues[q as int]@.len() {
                                    assert(queues@[q as int]@[r] == old_queues[s2]@[r]);
                                }
                            } else {
                                assert(old_slots.contains_key(k));
                                assert(queues@[s2]@[r] == old_queues[s2]@[r]);
                            }
                        }
                    }
                },
                None => {
                    let fresh = queues.len();
                    let mut queue: Vec<usize> = Vec::new();
                    queue.push(j);
                    queues.push(queue);
                    slots.insert(key, fresh);
                    proof {
                        assert forall|k2: Seq<char>, r: int|
                            #![trigger slots@.contains_key(k2), queues@[slots@[k2] as int]@[r]]
                            slots@.contains_key(k2) && 0 <= r < queues@[slots@[k2] as int]@.len()
                            implies {
                            let j2 = queues@[slots@[k2] as int]@[r];
                            0 <= j2 < j + 1 && t.key(j2 as int) == k2 && t.count_key(k2, j2 as int)
                                == r
                        } by {
                            let s2 = slots@[k2] as int;
                            if k2 != k {
                                assert(old_slots.contains_key(k2));
                                assert(queues@[s2]@[r] == old_queues[old_slots[k2] as int]@[r]);
                            }
                        }
                        assert forall|k1: Seq<char>, k2: Seq<char>|
                            #![trigger slots@.contains_key(k1), slots@.contains_key(k2)]
                            slots@.contains_key(k1) && slots@.contains_key(k2) && k1
                                != k2 implies slots@[k1] != slots@[k2] by {
                            if k1 != k && k2 != k {
                                assert(old_slots.contains_key(k1) && old_slots.contains_key(k2));
                            } else if k1 != k {
                                assert(old_slots.contains_key(k1));
                            } else {
                                assert(old_slots.contains_key(k2));
                            }
                        }
                    }
                },
            }
        }
        proof {
            assert forall|k2: Seq<char>| #[trigger]
                slots@.contains_key(k2) implies queues@[slots@[k2] as int]@.len() == t.count_key(
                k2,
                j + 1,
            ) by {
                if k2 != k {
                    assert(old_slots.contains_key(k2));
                }
            }
            assert forall|k2: Seq<char>|
                #![trigger slots@.contains_key(k2)]
                #![trigger t.count_key(k2, j + 1)]
                k2.len() > 0 implies (slots@.contains_key(k2) <==> t.count_key(k2, j + 1) > 0) by {
                assert(old_slots.contains_key(k2) <==> t.count_key(k2, j as int) > 0);
            }
        }
        j += 1;
    }
    (slots, queues)
}

/// A prefix of `n` rows holds at most `n` rows of a key.
pub proof fn lemma_count_at_most(t: Table, k: Seq<char>, n: int)
    requires
        0 <= n,
    ensures
        t.count_key(k, n) <= n,
    decreases n,
{
    if n > 0 {
        lemma_count_at_most(t, k, n - 1);
    }
}

/// Merges `parse_b` into `parse_a`.
///
/// The rows of one key pair off in order. A row of `parse_a` takes from its
/// partner every cell that is not blank and keeps its own where the
/// partner's is blank or missing; the rows of `parse_b` that found no
/// partner follow, as they are. Headers, columns, roles and column order
/// are those of `parse_a`; the rows are numbered from 1 and the result
/// carries no diagnostics. The merge never fails.
pub fn update_and_append_boms(parse_a: &ParseResult, parse_b: &ParseResult) -> (r: Result<
    ParseResult,
    AppError,
>)
    ensures
        r is Ok,
        r->Ok_0@ == merged(parse_a@, parse_b@),
{
    let (slots, queues) = queue_rows(parse_b);
    let ghost b = parse_a@;
    let ghost o = parse_b@;
    let bn = parse_a.rows.len();
    let on = parse_b.rows.len();
    let mut heads: Vec<usize> = Vec::new();
    let mut q: usize = 0;
    while q < queues.len()
        invariant
            q <= queues.len(),
            heads.len() == q,
            forall|p: int| 0 <= p < q ==> #[trigger] heads@[p] == 0,
        decreases queues.len() - q,
    {
        heads.push(0);
        q += 1;
    }
    let mut used: Vec<bool> = Vec::new();
    let mut j: usize = 0;
    while j < on
        invariant
            j <= on,
            used.len() == j,
            forall|p: int| 0 <= p < j ==> !#[trigger] used@[p],
        decreases on - j,
    {
        used.push(false);
        j += 1;
    }
    let mut rows: Vec<Vec<String>> = Vec::new();
    let mut i: usize = 0;
    while i < bn
        invariant
            i <= bn,
            bn == parse_a.rows.len(),
            on == parse_b.rows.len(),
            b == parse_a@,
            o == parse_b@,
            queues_hold(o, slots@, queues@, on as int),
            heads.len() == queues.len(),
            forall|k: Seq<char>| #[trigger]
                slots@.contains_key(k) ==> heads@[slots@[k] as int] == b.count_key(k, i as int),
            used.len() == on,
            forall|p: int|
                0 <= p < on ==> (#[trigger] used@[p] <==> o.key(p).len() > 0 && o.rank(p)
                    < b.count_key(o.key(p), i as int)),
            rows.len() == i,
            forall|p: int| 0 <= p < i ==> views((#[trigger] rows@[p])@) == updated_row(b, o, p),
        decreases bn - i,
    {
        let key = parse_a.get_ref(i);
        let ghost k = key@;
        let ghost old_used = used@;
        let ghost old_heads = heads@;
        let slot = if key.as_str().is_empty() {
            None
        } else {
            match slots.get(key.as_str()) {
                Some(q) => Some(*q),
                None => None,
            }
        };
        let mut partner_row: Option<usize> = None;
        match slot {
            Some(q) => {
                let h = heads[q];
                proof {
                    lemma_count_at_most(b, k, i as int);
                }
                if h < queues[q].len() {
                    let p = queues[q][h];
                    used.set(p, true);
                    partner_row = Some(p);
                    proof {
                        lemma_ranked_row_is(o, k, h as nat, on as int, p as int);
                    }
                } else {
                    proof {
                        lemma_no_row_beyond(o, k, h as nat, on as int);
                    }
                }
                heads.set(q, h + 1);
            },
            None => {
                proof {
                    if k.len() > 0 {
                        lemma_no_row_beyond(o, k, b.rank(i as int), on as int);
                    }
                }
            },
        }
        proof {
            assert(partner(b, o, i as int) == match partner_row {
                Some(p) => Some(p as int),
                None => None,
            });
            assert forall|k2: Seq<char>| #[trigger] slots@.contains_key(k2) implies heads@[slots@[k2]
                as int] == b.count_key(k2, i + 1) by {
                assert(old_heads[slots@[k2] as int] == b.count_key(k2, i as int));
                if k2 != k && slot is Some {
                    assert(slots@.contains_key(k));
                }
            }
            assert forall|p: int| 0 <= p < on implies (#[trigger] used@[p] <==> o.key(p).len() > 0
                && o.rank(p) < b.count_key(o.key(p), i + 1)) by {
                assert(old_used[p] <==> o.key(p).len() > 0 && o.rank(p) < b.count_key(
                    o.key(p),
                    i as int,
                ));
                if o.key(p) == k && k.len() > 0 {
                    lemma_count_after(o, k, p, on as int);
                    if o.rank(p) == b.count_key(k, i as int) {
                        lemma_ranked_row_is(o, k, o.rank(p), on as int, p);
                    }
                }
            }
        }
        let row = match partner_row {
            Some(p) => merge_row(&parse_a.rows[i], &parse_b.rows[p]),
            None => copy_row(&parse_a.rows[i]),
        };
        rows.push(row);
        i += 1;
    }
    let ghost first_part = grid(rows@);
    proof {
        assert(first_part =~= Seq::new(b.rows.len(), |x: int| updated_row(b, o, x)));
        assert(first_part + leftover(b, o, 0) =~= first_part);
    }
    let mut j: usize = 0;
    while j < on
        invariant
            j <= on,
            on == parse_b.rows.len(),
            bn == parse_a.rows.len(),
            b == parse_a@,
            o == parse_b@,
            used.len() == on,
            forall|p: int| 0 <= p < on ==> (#[trigger] used@[p] <==> taken(b, o, p)),
            grid(rows@) == first_part + leftover(b, o, j as int),
        decreases on - j,
    {
        if !used[j] {
            let ghost before = grid(rows@);
            rows.push(copy_row(&parse_b.rows[j]));
            proof {
                assert(grid(rows@) =~= before.push(o.rows[j as int]));
                assert(before.push(o.rows[j as int]) =~= first_part + leftover(b, o, j as int).push(
                    o.rows[j as int],
                ));
            }
        }
        j += 1;
    }
    let mut row_numbers: Vec<usize> = Vec::new();
    let mut n: usize = 0;
    while n < rows.len()
        invariant
            n <= rows.len(),
            row_numbers.len() == n,
            forall|p: int| 0 <= p < n ==> #[trigger] row_numbers@[p] == p + 1,
        decreases rows.len() - n,
    {
        row_numbers.push(n + 1);
        n += 1;
    }
    let result = ParseResult {
        rows,
        column_roles: copy_roles(&parse_a.column_roles),
        column_order: copy_row(&parse_a.column_order),
        headers: copy_row(&parse_a.headers),
        columns: copy_columns(&parse_a.columns),
        row_numbers,
        diagnostics: Vec::new(),
    };
    proof {
        let want = merged(b, o);
        assert(result@.rows == want.rows);
        assert(result@.row_numbers =~= want.row_numbers);
        assert(result@.diagnostics =~= want.diagnostics);
    }
    Ok(result)
}

/// Merge identity: merging a table without rows into `a` gives the rows of
/// `a`, cell by cell, under the headers, columns, roles and column order of
/// `a`.
pub proof fn law_merge_identity(a: Table, nothing: Table)
    requires
        nothing.rows.len() == 0,
    ensures
        merged(a, nothing).rows == a.rows,
        merged(a, nothing).roles == a.roles,
        merged(a, nothing).column_order == a.column_order,
        merged(a, nothing).headers == a.headers,
        merged(a, nothing).columns == a.columns,
{
    assert(merged_rows(a, nothing) =~= a.rows);
}

/// Non-empty wins, for one row: where the overlay row is blank at column
/// `c`, or ends before it, the merged row holds at `c` what the base row
/// held.
pub proof fn law_blank_keeps_base(base: Seq<Seq<char>>, over: Seq<Seq<char>>, c: int)
    requires
        0 <= c < base.len(),
        c >= over.len() || is_blank(over[c]),
    ensures
        c < merged_row(base, over).len(),
        merged_row(base, over)[c] == base[c],
{
}

/// Non-empty wins, for a table: a cell of the base stays as it is unless
/// the row's partner holds something at that column.
pub proof fn law_non_empty_wins(base: Table, overlay: Table, i: int, c: int)
    requires
        0 <= i < base.rows.len(),
        0 <= c < base.rows[i].len(),
        match partner(base, overlay, i) {
            Some(j) => c >= overlay.rows[j].len() || is_blank(overlay.rows[j][c]),
            None => true,
        },
    ensures
        merged(base, overlay).rows[i][c] == base.rows[i][c],
{
}

/// Full overwrite, for one row: every cell of the overlay row that is not
/// blank stands in the merged row, at its column; so where no cell of the
/// overlay row is blank, the merged row starts with the overlay row.
pub proof fn law_overlay_cell_wins(base: Seq<Seq<char>>, over: Seq<Seq<char>>)
    ensures
        forall|c: int|
            0 <= c < over.len() && !is_blank(#[trigger] over[c]) ==> c < merged_row(
                base,
                over,
            ).len() && merged_row(base, over)[c] == over[c],
        (forall|c: int| 0 <= c < over.len() ==> !is_blank(#[trigger] over[c])) ==> over.len()
            <= merged_row(base, over).len() && merged_row(base, over).take(over.len() as int)
            == over,
{
    let m = merged_row(base, over);
    assert forall|c: int| 0 <= c < over.len() && !is_blank(#[trigger] over[c]) implies c
        < m.len() && m[c] == over[c] by {
        lemma_reach_covers(over, over.len() as int, c);
    }
    if forall|c: int| 0 <= c < over.len() ==> !is_blank(#[trigger] over[c]) {
        if over.len() > 0 {
            assert(!is_blank(over[over.len() - 1]));
        }
        assert(m.take(over.len() as int) =~= over);
    }
}

/// Full overwrite, for a table: where the partner of row `i` has no blank
/// cell, the merged row holds the partner's cells in the columns that the
/// partner covers.
pub proof fn law_full_overwrite(base: Table, overlay: Table, i: int)
    requires
        0 <= i < base.rows.len(),
        partner(base, overlay, i) is Some,
        forall|c: int|
            0 <= c < overlay.rows[partner(base, overlay, i)->0].len() ==> !is_blank(
                #[trigger] overlay.rows[partner(base, overlay, i)->0][c],
            ),
    ensures
        forall|c: int|
            0 <= c < overlay.rows[partner(base, overlay, i)->0].len() ==> c < merged(
                base,
                overlay,
            ).rows[i].len() && #[trigger] merged(base, overlay).rows[i][c]
                == overlay.rows[partner(base, overlay, i)->0][c],
{
    let j = partner(base, overlay, i)->0;
    law_overlay_cell_wins(base.rows[i], overlay.rows[j]);
    let m = merged_row(base.rows[i], overlay.rows[j]);
    assert(merged(base, overlay).rows[i] == m);
    assert forall|c: int| 0 <= c < overlay.rows[j].len() implies c < m.len() && m[c]
        == overlay.rows[j][c] by {
        assert(!is_blank(overlay.rows[j][c]));
    }
}

/// The reach of a row passes every cell of it that is not blank.
pub proof fn lemma_reach_covers(row: Seq<Seq<char>>, n: int, c: int)
    requires
        0 <= c < n <= row.len(),
        !is_blank(row[c]),
    ensures
        c < reach(row, n),
    decreases n,
{
    if is_blank(row[n - 1]) {
        lemma_reach_covers(row, n - 1, c);
    }
}

} // verus!
