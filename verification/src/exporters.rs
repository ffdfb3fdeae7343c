//! Rendering of a table as text, in the formats that the CAD tools read.

use crate::csv_format::{csv_records, export_csv, is_csv_of};
use crate::models::{change_views, role_part_no, AppError, Change, DiffRow, ParseResult, Table};
use crate::text::{
    chars_of, lemma_less_asymmetric, lemma_less_total, lemma_less_transitive, same_text,
    text_before, text_less, uppercase, views,
};
use vstd::hash_map::StringHashMap;
use vstd::prelude::*;
use vstd::string::StringExecFns;

verus! {

/// What the caller asks of an export.
#[derive(Clone, Debug)]
pub struct ExportOptions {
    pub format: String,
    pub include_diff_comments: bool,
    pub filter: Option<String>,
    pub headers: Vec<String>,
    pub diffs: Option<Vec<DiffRow>>,
}

/// The status that the last of the first `n` changes gives to a key.
pub open spec fn status_of(changes: Seq<Change>, key: Seq<char>, n: int) -> Option<Seq<char>>
    decreases n,
{
    if n <= 0 {
        None
    } else if changes[n - 1].key == key {
        Some(changes[n - 1].status)
    } else {
        status_of(changes, key, n - 1)
    }
}

/// The statuses of the keys of a comparison: for each key that of the last
/// change that has it.
pub open spec fn statuses(changes: Seq<Change>) -> Map<Seq<char>, Seq<char>> {
    Map::new(
        |k: Seq<char>| status_of(changes, k, changes.len() as int) is Some,
        |k: Seq<char>| status_of(changes, k, changes.len() as int)->0,
    )
}

/// What a map from keys to status texts stands for in contracts.
pub open spec fn text_map(m: Map<Seq<char>, String>) -> Map<Seq<char>, Seq<char>> {
    Map::new(|k: Seq<char>| m.contains_key(k), |k: Seq<char>| m[k]@)
}

/// Gathers the statuses of the keys of a comparison.
pub fn diff_statuses(diffs: &[DiffRow]) -> (m: StringHashMap<String>)
    ensures
        text_map(m@) == statuses(change_views(diffs@)),
{
    let ghost changes = change_views(diffs@);
    let mut m: StringHashMap<String> = StringHashMap::new();
    let mut i: usize = 0;
    while i < diffs.len()
        invariant
            i <= diffs.len(),
            changes == change_views(diffs@),
            forall|k: Seq<char>|
                #![trigger m@.contains_key(k)]
                #![trigger status_of(changes, k, i as int)]
                match status_of(changes, k, i as int) {
                    Some(s) => m@.contains_key(k) && m@[k]@ == s,
                    None => !m@.contains_key(k),
                },
        decreases diffs.len() - i,
    {
        let ghost before = m@;
        let ghost k0 = diffs@[i as int].ref_value@;
        proof {
            assert(changes[i as int] == diffs@[i as int]@);
        }
        m.insert(diffs[i].ref_value.clone(), diffs[i].status.clone());
        proof {
            assert forall|k: Seq<char>|
                #![trigger m@.contains_key(k)]
                #![trigger status_of(changes, k, i + 1)]
                match status_of(changes, k, i + 1) {
                    Some(s) => m@.contains_key(k) && m@[k]@ == s,
                    None => !m@.contains_key(k),
                } by {
                if k != k0 {
                    assert(before.contains_key(k) == m@.contains_key(k));
                    assert(status_of(changes, k, i + 1) == status_of(changes, k, i as int));
                }
            }
        }
        i += 1;
    }
    proof {
        assert(text_map(m@) =~= statuses(changes));
    }
    m
}

/// The comment that a status gets in an export: an arrow and the word for
/// the status; nothing for `unchanged`.
pub open spec fn comment_for(status: Seq<char>) -> Seq<char> {
    if status == "added"@ || status == "追加"@ {
        "←追加"@
    } else if status == "removed"@ || status == "削除"@ {
        "←削除"@
    } else if status == "modified"@ || status == "変更"@ {
        "←変更"@
    } else if status == "unchanged"@ || status == "同一"@ {
        Seq::empty()
    } else {
        "←"@ + status
    }
}

/// The comment for a key: that of its status, or nothing where the key has
/// none.
pub open spec fn comment_of(key: Seq<char>, known: Map<Seq<char>, Seq<char>>) -> Seq<char> {
    if known.contains_key(key) {
        comment_for(known[key])
    } else {
        Seq::empty()
    }
}

/// Writes the comment for a key.
pub fn diff_comment(ref_value: &str, diff_map: &StringHashMap<String>) -> (r: String)
    ensures
        r@ == comment_of(ref_value@, text_map(diff_map@)),
{
    match diff_map.get(ref_value) {
        Some(status) => {
            let s = status.as_str();
            if same_text(s, "added") || same_text(s, "追加") {
                "←追加".to_owned()
            } else if same_text(s, "removed") || same_text(s, "削除") {
                "←削除".to_owned()
            } else if same_text(s, "modified") || same_text(s, "変更") {
                "←変更".to_owned()
            } else if same_text(s, "unchanged") || same_text(s, "同一") {
                String::new()
            } else {
                let mut out = "←".to_owned();
                out.append(s);
                out
            }
        },
        None => String::new(),
    }
}

/// A reference with its comment: the comment follows after a space, where
/// comments are asked for and the key has one.
pub open spec fn commented(
    key: Seq<char>,
    known: Map<Seq<char>, Seq<char>>,
    include_comments: bool,
) -> Seq<char> {
    if include_comments && comment_of(key, known).len() > 0 {
        key + " "@ + comment_of(key, known)
    } else {
        key
    }
}

/// Writes a reference with its comment.
fn with_comment(key: String, diff_map: &StringHashMap<String>, include_comments: bool) -> (r:
    String)
    ensures
        r@ == commented(key@, text_map(diff_map@), include_comments),
{
    let mut out = key;
    if include_comments {
        let comment = diff_comment(out.as_str(), diff_map);
        if !comment.as_str().is_empty() {
            out.append(" ");
            out.append(comment.as_str());
        }
    }
    out
}

/// The line of row `r` in the ECO format: reference, space, part number,
/// and the comment.
pub open spec fn eco_line(
    t: Table,
    r: int,
    known: Map<Seq<char>, Seq<char>>,
    include_comments: bool,
) -> Seq<char> {
    let line = t.key(r) + " "@ + t.first_value(r, role_part_no());
    if include_comments && comment_of(t.key(r), known).len() > 0 {
        line + " "@ + comment_of(t.key(r), known)
    } else {
        line
    }
}

/// The lines of the first `n` rows in the ECO format, each with a line
/// break before it.
pub open spec fn eco_lines(
    t: Table,
    known: Map<Seq<char>, Seq<char>>,
    include_comments: bool,
    n: int,
) -> Seq<char>
    decreases n,
{
    if n <= 0 {
        Seq::empty()
    } else {
        eco_lines(t, known, include_comments, n - 1) + "\n"@ + eco_line(
            t,
            n - 1,
            known,
            include_comments,
        )
    }
}

/// A table in the ECO format: two head lines, a line for each row, and the
/// end line.
pub open spec fn eco_text(
    t: Table,
    known: Map<Seq<char>, Seq<char>>,
    include_comments: bool,
) -> Seq<char> {
    "*PADS-ECO*\n*PART*"@ + eco_lines(t, known, include_comments, t.rows.len() as int)
        + "\n*END*"@
}

/// Writes a table in the ECO format. Writing never fails.
pub fn export_eco(
    parse: &ParseResult,
    diff_map: &StringHashMap<String>,
    include_comments: bool,
) -> (r: Result<String, AppError>)
    ensures
        r is Ok,
        r->Ok_0@ == eco_text(parse@, text_map(diff_map@), include_comments),
{
    let ghost t = parse@;
    let ghost known = text_map(diff_map@);
    let mut out = "*PADS-ECO*\n*PART*".to_owned();
    let ghost head = out@;
    proof {
        assert(head + eco_lines(t, known, include_comments, 0) =~= head);
    }
    let mut r: usize = 0;
    while r < parse.rows.len()
        invariant
            r <= parse.rows.len(),
            t == parse@,
            known == text_map(diff_map@),
            head == "*PADS-ECO*\n*PART*"@,
            out@ == head + eco_lines(t, known, include_comments, r as int),
        decreases parse.rows.len() - r,
    {
        let key = parse.get_ref(r);
        let part = parse.get_part_no(r);
        let mut line = key.clone();
        line.append(" ");
        line.append(part.as_str());
        if include_comments {
            let comment = diff_comment(key.as_str(), diff_map);
            if !comment.as_str().is_empty() {
                line.append(" ");
                line.append(comment.as_str());
            }
        }
        let ghost before = out@;
        out.append("\n");
        out.append(line.as_str());
        proof {
            assert(line@ == eco_line(t, r as int, known, include_comments));
            assert(out@ =~= head + (eco_lines(t, known, include_comments, r as int) + "\n"@
                + eco_line(t, r as int, known, include_comments)));
        }
        r += 1;
    }
    out.append("\n*END*");
    Ok(out)
}

/// The references that share one part number.
#[derive(Clone, Debug)]
pub struct PartGroup {
    pub part_no: String,
    pub references: Vec<String>,
}

/// What a list of groups stands for in contracts.
pub open spec fn group_views(groups: Seq<PartGroup>) -> Seq<(Seq<char>, Seq<Seq<char>>)> {
    Seq::new(groups.len(), |i: int| (groups[i].part_no@, views(groups[i].references@)))
}

/// What stands for the part number of a row that has none.
pub open spec fn no_part() -> Seq<char> {
    "(未指定)"@
}

/// The part number under which row `r` is grouped.
pub open spec fn part_key(t: Table, r: int) -> Seq<char> {
    let part = t.first_value(r, role_part_no());
    if part.len() == 0 {
        no_part()
    } else {
        part
    }
}

/// The references, with their comments, of those of the first `n` rows
/// that are grouped under `part`, in row order.
pub open spec fn members(
    t: Table,
    known: Map<Seq<char>, Seq<char>>,
    include_comments: bool,
    part: Seq<char>,
    n: int,
) -> Seq<Seq<char>>
    decreases n,
{
    if n <= 0 {
        Seq::empty()
    } else {
        let before = members(t, known, include_comments, part, n - 1);
        if part_key(t, n - 1) == part {
            before.push(commented(t.key(n - 1), known, include_comments))
        } else {
            before
        }
    }
}

/// Whether the part numbers of the groups ascend in the order of strings.
pub open spec fn ascending(groups: Seq<(Seq<char>, Seq<Seq<char>>)>) -> bool {
    forall|i: int, j: int|
        0 <= i < j < groups.len() ==> text_less((#[trigger] groups[i]).0, (#[trigger] groups[j]).0)
}

/// Whether there is a group for the part number `part`.
pub open spec fn has_group(groups: Seq<(Seq<char>, Seq<Seq<char>>)>, part: Seq<char>) -> bool {
    exists|g: int| 0 <= g < groups.len() && (#[trigger] groups[g]).0 == part
}

/// Whether `groups` are the groups of the first `n` rows: one for each
/// part number that occurs, in ascending order, each with the references
/// of its rows.
pub open spec fn groups_of(
    t: Table,
    known: Map<Seq<char>, Seq<char>>,
    include_comments: bool,
    groups: Seq<(Seq<char>, Seq<Seq<char>>)>,
    n: int,
) -> bool {
    &&& ascending(groups)
    &&& forall|g: int|
        0 <= g < groups.len() ==> (#[trigger] groups[g]).1 == members(
            t,
            known,
            include_comments,
            groups[g].0,
            n,
        ) && groups[g].1.len() > 0
    &&& forall|r: int| 0 <= r < n ==> has_group(groups, #[trigger] part_key(t, r))
}

/// Under a part number that no row has, no reference is grouped.
pub proof fn lemma_no_members(
    t: Table,
    known: Map<Seq<char>, Seq<char>>,
    include_comments: bool,
    part: Seq<char>,
    n: int,
)
    requires
        forall|r: int| 0 <= r < n ==> #[trigger] part_key(t, r) != part,
    ensures
        members(t, known, include_comments, part, n).len() == 0,
    decreases n,
{
    if n > 0 {
        lemma_no_members(t, known, include_comments, part, n - 1);
    }
}

/// A group with a reference belongs to a row.
pub proof fn lemma_member_has_row(
    t: Table,
    known: Map<Seq<char>, Seq<char>>,
    include_comments: bool,
    part: Seq<char>,
    n: int,
)
    requires
        members(t, known, include_comments, part, n).len() > 0,
    ensures
        exists|r: int| 0 <= r < n && #[trigger] part_key(t, r) == part,
{
    if forall|r: int| 0 <= r < n ==> #[trigger] part_key(t, r) != part {
        lemma_no_members(t, known, include_comments, part, n);
    }
}

/// The groups of a table are determined: there is one list of groups and
/// no other.
pub proof fn lemma_groups_are_unique(
    t: Table,
    known: Map<Seq<char>, Seq<char>>,
    include_comments: bool,
    first: Seq<(Seq<char>, Seq<Seq<char>>)>,
    second: Seq<(Seq<char>, Seq<Seq<char>>)>,
    n: int,
)
    requires
        groups_of(t, known, include_comments, first, n),
        groups_of(t, known, include_comments, second, n),
    ensures
        first == second,
{
    assert forall|i: int| 0 <= i < first.len() implies has_group(
        second,
        (#[trigger] first[i]).0,
    ) by {
        lemma_member_has_row(t, known, include_comments, first[i].0, n);
        let r = choose|r: int| 0 <= r < n && #[trigger] part_key(t, r) == first[i].0;
        assert(has_group(second, part_key(t, r)));
    }
    assert forall|j: int| 0 <= j < second.len() implies has_group(
        first,
        (#[trigger] second[j]).0,
    ) by {
        lemma_member_has_row(t, known, include_comments, second[j].0, n);
        let r = choose|r: int| 0 <= r < n && #[trigger] part_key(t, r) == second[j].0;
        assert(has_group(first, part_key(t, r)));
    }
    lemma_same_keys_same_order(first, second);
    assert forall|i: int| 0 <= i < first.len() implies first[i] == second[i] by {
        assert(first[i].1 == members(t, known, include_comments, first[i].0, n));
        assert(second[i].1 == members(t, known, include_comments, second[i].0, n));
    }
    assert(first =~= second);
}

/// Two ascending lists that hold the same part numbers hold them at the
/// same places.
pub proof fn lemma_same_keys_same_order(
    first: Seq<(Seq<char>, Seq<Seq<char>>)>,
    second: Seq<(Seq<char>, Seq<Seq<char>>)>,
)
    requires
        ascending(first),
        ascending(second),
        forall|i: int| 0 <= i < first.len() ==> has_group(second, (#[trigger] first[i]).0),
        forall|j: int| 0 <= j < second.len() ==> has_group(first, (#[trigger] second[j]).0),
    ensures
        first.len() == second.len(),
        forall|i: int| 0 <= i < first.len() ==> (#[trigger] first[i]).0 == second[i].0,
    decreases first.len(),
{
    if first.len() == 0 {
        if second.len() > 0 {
            assert(has_group(first, second[0].0));
        }
    } else {
        let a = first[first.len() - 1];
        assert(has_group(second, a.0));
        let j = choose|j: int| 0 <= j < second.len() && (#[trigger] second[j]).0 == a.0;
        let b = second[second.len() - 1];
        assert(has_group(first, b.0));
        let i = choose|i: int| 0 <= i < first.len() && (#[trigger] first[i]).0 == b.0;
        if a.0 != b.0 {
            assert(text_less(second[j].0, b.0));
            assert(text_less(first[i].0, a.0));
            lemma_less_asymmetric(a.0, b.0, 0);
        }
        let f = first.take(first.len() - 1);
        let s = second.take(second.len() - 1);
        assert forall|x: int, y: int| 0 <= x < y < f.len() implies text_less(
            (#[trigger] f[x]).0,
            (#[trigger] f[y]).0,
        ) by {
            assert(text_less(first[x].0, first[y].0));
        }
        assert forall|x: int, y: int| 0 <= x < y < s.len() implies text_less(
            (#[trigger] s[x]).0,
            (#[trigger] s[y]).0,
        ) by {
            assert(text_less(second[x].0, second[y].0));
        }
        assert forall|x: int| 0 <= x < f.len() implies has_group(s, (#[trigger] f[x]).0) by {
            assert(has_group(second, first[x].0));
            let y = choose|y: int| 0 <= y < second.len() && (#[trigger] second[y]).0 == first[x].0;
            assert(text_less(first[x].0, a.0));
            lemma_less_asymmetric(first[x].0, a.0, 0);
            assert(s[y].0 == f[x].0);
        }
        assert forall|y: int| 0 <= y < s.len() implies has_group(f, (#[trigger] s[y]).0) by {
            assert(has_group(first, second[y].0));
            let x = choose|x: int| 0 <= x < first.len() && (#[trigger] first[x]).0 == second[y].0;
            assert(text_less(second[y].0, b.0));
            lemma_less_asymmetric(second[y].0, b.0, 0);
            assert(f[x].0 == s[y].0);
        }
        lemma_same_keys_same_order(f, s);
        assert forall|x: int| 0 <= x < first.len() implies (#[trigger] first[x]).0
            == second[x].0 by {
            if x < first.len() - 1 {
                assert(f[x].0 == s[x].0);
            }
        }
    }
}

/// The groups of a table: its rows by part number, in ascending order.
pub open spec fn grouping(
    t: Table,
    known: Map<Seq<char>, Seq<char>>,
    include_comments: bool,
) -> Seq<(Seq<char>, Seq<Seq<char>>)> {
    choose|groups: Seq<(Seq<char>, Seq<Seq<char>>)>|
        groups_of(t, known, include_comments, groups, t.rows.len() as int)
}

/// Groups the rows of a table by part number. The groups ascend by part
/// number; a row without a part number is grouped under `(未指定)`; the
/// references of a group stand in row order, each with its comment where
/// comments are asked for.
pub fn group_by_part_no(
    parse: &ParseResult,
    diff_map: &StringHashMap<String>,
    include_comments: bool,
) -> (r: Vec<PartGroup>)
    ensures
        group_views(r@) == grouping(parse@, text_map(diff_map@), include_comments),
        groups_of(
            parse@,
            text_map(diff_map@),
            include_comments,
            group_views(r@),
            parse@.rows.len() as int,
        ),
{
    let ghost t = parse@;
    let ghost known = text_map(diff_map@);
    let mut groups: Vec<PartGroup> = Vec::new();
    let mut r: usize = 0;
    while r < parse.rows.len()
        invariant
            r <= parse.rows.len(),
            t == parse@,
            known == text_map(diff_map@),
            groups_of(t, known, include_comments, group_views(groups@), r as int),
        decreases parse.rows.len() - r,
    {
        let key = parse.get_ref(r);
        let mut part = parse.get_part_no(r);
        if part.as_str().is_empty() {
            part = "(未指定)".to_owned();
        }
        let member = with_comment(key, diff_map, include_comments);
        let wanted = chars_of(part.as_str());
        let ghost before = group_views(groups@);
        let ghost pk = part@;
        let ghost mem = member@;
        proof {
            assert(pk == part_key(t, r as int));
            assert(mem == commented(t.key(r as int), known, include_comments));
        }
        let mut pos: usize = 0;
        while pos < groups.len() && text_before(&chars_of(groups[pos].part_no.as_str()), &wanted)
            invariant
                pos <= groups.len(),
                wanted@ == pk,
                before == group_views(groups@),
                forall|i: int| 0 <= i < pos ==> text_less((#[trigger] before[i]).0, pk),
            decreases groups.len() - pos,
        {
            proof {
                assert(before[pos as int].0 == groups@[pos as int].part_no@);
            }
            pos += 1;
        }
        proof {
            if pos < groups.len() {
                assert(before[pos as int].0 == groups@[pos as int].part_no@);
            }
        }
        if pos < groups.len() && same_text(groups[pos].part_no.as_str(), part.as_str()) {
            groups[pos].references.push(member);
            proof {
                let after = group_views(groups@);
                assert(after.len() == before.len());
                assert forall|g: int| 0 <= g < after.len() implies (#[trigger] after[g]).0
                    == before[g].0 && after[g].1 == if g == pos {
                    before[g].1.push(mem)
                } else {
                    before[g].1
                } by {
                    if g == pos {
                        assert(after[g].1 =~= before[g].1.push(mem));
                    }
                }
                assert forall|i: int, j: int| 0 <= i < j < after.len() implies text_less(
                    (#[trigger] after[i]).0,
                    (#[trigger] after[j]).0,
                ) by {
                    assert(text_less(before[i].0, before[j].0));
                }
                assert forall|g: int| 0 <= g < after.len() implies (#[trigger] after[g]).1
                    == members(t, known, include_comments, after[g].0, r + 1) && after[g].1.len()
                    > 0 by {
                    assert(before[g].1 == members(
                        t,
                        known,
                        include_comments,
                        before[g].0,
                        r as int,
                    ));
                    if g != pos {
                        if g < pos {
                            lemma_less_asymmetric(before[g].0, before[pos as int].0, 0);
                        } else {
                            lemma_less_asymmetric(before[pos as int].0, before[g].0, 0);
                        }
                    }
                }
                assert forall|x: int| 0 <= x < r + 1 implies has_group(
                    after,
                    #[trigger] part_key(t, x),
                ) by {
                    if x < r {
                        assert(has_group(before, part_key(t, x)));
                        let g = choose|g: int|
                            0 <= g < before.len() && (#[trigger] before[g]).0 == part_key(t, x);
                        assert(after[g].0 == part_key(t, x));
                    } else {
                        assert(after[pos as int].0 == part_key(t, x));
                    }
                }
            }
        } else {
            let mut references: Vec<String> = Vec::new();
            references.push(member);
            proof {
                assert(views(references@) =~= seq![mem]);
            }
            groups.insert(pos, PartGroup { part_no: part, references });
            proof {
                let after = group_views(groups@);
                assert(after =~= before.insert(pos as int, (pk, seq![mem])));
                if pos < before.len() {
                    lemma_less_total(before[pos as int].0, pk, 0);
                }
                assert forall|j: int| pos <= j < before.len() implies text_less(
                    pk,
                    (#[trigger] before[j]).0,
                ) by {
                    if j > pos {
                        assert(text_less(before[pos as int].0, before[j].0));
                        lemma_less_transitive(pk, before[pos as int].0, before[j].0, 0);
                    }
                }
                assert forall|i: int, j: int| 0 <= i < j < after.len() implies text_less(
                    (#[trigger] after[i]).0,
                    (#[trigger] after[j]).0,
                ) by {
                    if i < pos && j > pos {
                        assert(text_less(before[i].0, before[j - 1].0));
                    } else if i < pos && j < pos {
                        assert(text_less(before[i].0, before[j].0));
                    } else if i > pos {
                        assert(text_less(before[i - 1].0, before[j - 1].0));
                    }
                }
                assert forall|x: int| 0 <= x < r implies #[trigger] part_key(t, x) != pk by {
                    assert(has_group(before, part_key(t, x)));
                    let g = choose|g: int|
                        0 <= g < before.len() && (#[trigger] before[g]).0 == part_key(t, x);
                    if g < pos {
                        lemma_less_asymmetric(before[g].0, pk, 0);
                    } else {
                        lemma_less_asymmetric(pk, before[g].0, 0);
                    }
                }
                lemma_no_members(t, known, include_comments, pk, r as int);
                assert forall|g: int| 0 <= g < after.len() implies (#[trigger] after[g]).1
                    == members(t, known, include_comments, after[g].0, r + 1) && after[g].1.len()
                    > 0 by {
                    if g < pos {
                        assert(after[g] == before[g]);
                        lemma_less_asymmetric(before[g].0, pk, 0);
                    } else if g > pos {
                        assert(after[g] == before[g - 1]);
                        lemma_less_asymmetric(pk, before[g - 1].0, 0);
                    } else {
                        assert(members(t, known, include_comments, pk, r + 1) =~= seq![mem]);
                    }
                }
                assert forall|x: int| 0 <= x < r + 1 implies has_group(
                    after,
                    #[trigger] part_key(t, x),
                ) by {
                    if x < r {
                        assert(has_group(before, part_key(t, x)));
                        let g = choose|g: int|
                            0 <= g < before.len() && (#[trigger] before[g]).0 == part_key(t, x);
                        if g < pos {
                            assert(after[g].0 == part_key(t, x));
                        } else {
                            assert(after[g + 1].0 == part_key(t, x));
                        }
                    } else {
                        assert(after[pos as int].0 == part_key(t, x));
                    }
                }
            }
        }
        r += 1;
    }
    proof {
        lemma_groups_are_unique(
            t,
            known,
            include_comments,
            group_views(groups@),
            grouping(t, known, include_comments),
            t.rows.len() as int,
        );
    }
    groups
}

/// The references of a group after the first, up to the `n`-th, each on a
/// line of its own after a comma.
pub open spec fn more_references(references: Seq<Seq<char>>, n: int) -> Seq<char>
    decreases n,
{
    if n <= 1 {
        Seq::empty()
    } else {
        more_references(references, n - 1) + ",\n                         "@ + references[n - 1]
    }
}

/// The text of one group: the part number, a colon, the references, a
/// semicolon.
pub open spec fn group_text(group: (Seq<char>, Seq<Seq<char>>)) -> Seq<char> {
    "                "@ + group.0 + ":"@ + group.1[0] + more_references(
        group.1,
        group.1.len() as int,
    ) + ";\n"@
}

/// The texts of the first `n` groups, one after the other.
pub open spec fn group_texts(groups: Seq<(Seq<char>, Seq<Seq<char>>)>, n: int) -> Seq<char>
    decreases n,
{
    if n <= 0 {
        Seq::empty()
    } else {
        group_texts(groups, n - 1) + group_text(groups[n - 1])
    }
}

/// The groups in the CCF format.
pub open spec fn ccf_text(groups: Seq<(Seq<char>, Seq<Seq<char>>)>) -> Seq<char> {
    "$CCF{\n     DEFINITION{\n"@ + group_texts(groups, groups.len() as int)
        + "               }\n     NET{\n        }\n    }\n"@
}

/// The groups in the MSF format.
pub open spec fn msf_text(groups: Seq<(Seq<char>, Seq<Seq<char>>)>) -> Seq<char> {
    "$MSF {\n     SHAPE {\n"@ + group_texts(groups, groups.len() as int)
        + "           }\n      }\n"@
}

/// Appends the texts of the groups to `out`.
fn write_groups(out: &mut String, groups: &Vec<PartGroup>)
    requires
        forall|g: int| 0 <= g < groups@.len() ==> (#[trigger] groups@[g]).references@.len() > 0,
    ensures
        final(out)@ == old(out)@ + group_texts(group_views(groups@), groups@.len() as int),
{
    let ghost head = out@;
    let ghost gv = group_views(groups@);
    proof {
        assert(head + group_texts(gv, 0) =~= head);
    }
    let mut g: usize = 0;
    while g < groups.len()
        invariant
            g <= groups.len(),
            gv == group_views(groups@),
            forall|x: int| 0 <= x < groups@.len() ==> (#[trigger] groups@[x]).references@.len() > 0,
            out@ == head + group_texts(gv, g as int),
        decreases groups.len() - g,
    {
        let group = &groups[g];
        let ghost refs = views(group.references@);
        let ghost done = group_texts(gv, g as int);
        proof {
            assert(gv[g as int] == (group.part_no@, refs));
            assert(refs[0] == group.references@[0]@);
        }
        let mut text = "                ".to_owned();
        text.append(group.part_no.as_str());
        text.append(":");
        text.append(group.references[0].as_str());
        let ghost start = text@;
        proof {
            assert(start + more_references(refs, 1) =~= start);
        }
        let mut i: usize = 1;
        while i < group.references.len()
            invariant
                1 <= i <= group.references.len(),
                refs == views(group.references@),
                text@ == start + more_references(refs, i as int),
            decreases group.references.len() - i,
        {
            proof {
                assert(refs[i as int] == group.references@[i as int]@);
            }
            text.append(",\n                         ");
            text.append(group.references[i].as_str());
            proof {
                assert(text@ =~= start + (more_references(refs, i as int)
                    + ",\n                         "@ + refs[i as int]));
            }
            i += 1;
        }
        text.append(";\n");
        proof {
            assert(text@ =~= group_text(gv[g as int]));
        }
        out.append(text.as_str());
        proof {
            assert(out@ =~= head + (done + group_text(gv[g as int])));
        }
        g += 1;
    }
}

/// Writes a table in the CCF format: its rows grouped by part number.
/// Writing never fails.
pub fn export_ccf(
    parse: &ParseResult,
    diff_map: &StringHashMap<String>,
    include_comments: bool,
) -> (r: Result<String, AppError>)
    ensures
        r is Ok,
        r->Ok_0@ == ccf_text(grouping(parse@, text_map(diff_map@), include_comments)),
{
    let groups = group_by_part_no(parse, diff_map, include_comments);
    let mut out = "$CCF{\n     DEFINITION{\n".to_owned();
    proof {
        let gv = group_views(groups@);
        assert forall|g: int| 0 <= g < groups@.len() implies (
        #[trigger] groups@[g]).references@.len() > 0 by {
            assert(gv[g].1.len() > 0);
        }
    }
    write_groups(&mut out, &groups);
    out.append("               }\n     NET{\n        }\n    }\n");
    proof {
        assert(out@ == ccf_text(group_views(groups@)));
    }
    Ok(out)
}

/// Writes a table in the MSF format: its rows grouped by part number.
/// Writing never fails.
pub fn export_msf(
    parse: &ParseResult,
    diff_map: &StringHashMap<String>,
    include_comments: bool,
) -> (r: Result<String, AppError>)
    ensures
        r is Ok,
        r->Ok_0@ == msf_text(grouping(parse@, text_map(diff_map@), include_comments)),
{
    let groups = group_by_part_no(parse, diff_map, include_comments);
    let mut out = "$MSF {\n     SHAPE {\n".to_owned();
    proof {
        let gv = group_views(groups@);
        assert forall|g: int| 0 <= g < groups@.len() implies (
        #[trigger] groups@[g]).references@.len() > 0 by {
            assert(gv[g].1.len() > 0);
        }
    }
    write_groups(&mut out, &groups);
    out.append("           }\n      }\n");
    proof {
        assert(out@ == msf_text(group_views(groups@)));
    }
    Ok(out)
}

/// The statuses that an export knows: those of the comparison it was
/// given, or none.
pub open spec fn known_statuses(diffs: Option<&[DiffRow]>) -> Map<Seq<char>, Seq<char>> {
    match diffs {
        Some(d) => statuses(change_views(d@)),
        None => Map::empty(),
    }
}

/// What is said of a format that is not known.
pub open spec fn unknown_format_message(format: Seq<char>) -> Seq<char> {
    "未対応のエクスポート形式です: "@ + uppercase(format)
}

/// Whether `r` is the export of a table in the format `format`, which is
/// read in uppercase: `CSV`, `ECO`, `CCF` or `MSF`. Any other format is
/// refused.
pub open spec fn is_export_of(
    t: Table,
    format: Seq<char>,
    known: Map<Seq<char>, Seq<char>>,
    include_comments: bool,
    r: Result<String, AppError>,
) -> bool {
    let f = uppercase(format);
    if f == "CSV"@ {
        is_csv_of(csv_records(t, known, include_comments), r)
    } else if f == "ECO"@ {
        r is Ok && r->Ok_0@ == eco_text(t, known, include_comments)
    } else if f == "CCF"@ {
        r is Ok && r->Ok_0@ == ccf_text(grouping(t, known, include_comments))
    } else if f == "MSF"@ {
        r is Ok && r->Ok_0@ == msf_text(grouping(t, known, include_comments))
    } else {
        r is Err && r->Err_0.message@ == unknown_format_message(format)
    }
}

/// Writes a table in the format `format`, with the comments that the
/// comparison `diffs` gives where comments are asked for.
pub fn export_bom_file(
    parse: &ParseResult,
    format: &str,
    diffs: Option<&[DiffRow]>,
    include_comments: bool,
) -> (r: Result<String, AppError>)
    ensures
        is_export_of(parse@, format@, known_statuses(diffs), include_comments, r),
{
    let diff_map = match diffs {
        Some(d) => diff_statuses(d),
        None => StringHashMap::new(),
    };
    proof {
        assert(text_map(diff_map@) =~= known_statuses(diffs));
    }
    let upper = format.to_uppercase();
    let f = upper.as_str();
    if same_text(f, "CSV") {
        export_csv(parse, &diff_map, include_comments)
    } else if same_text(f, "ECO") {
        export_eco(parse, &diff_map, include_comments)
    } else if same_text(f, "CCF") {
        export_ccf(parse, &diff_map, include_comments)
    } else if same_text(f, "MSF") {
        export_msf(parse, &diff_map, include_comments)
    } else {
        let mut message = "未対応のエクスポート形式です: ".to_owned();
        message.append(f);
        Err(AppError::new(message.as_str()))
    }
}

} // verus!
