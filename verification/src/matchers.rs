//! Matching of rows against rules, and the assignment of names by rule.

use crate::models::{
    copy_columns, copy_diagnostics, copy_roles, copy_row, role_ids, role_manufacturer, role_part_no,
    role_position, role_value, role_views, AppError, ParseResult, RoleColumns, Table,
};
use crate::text::{
    blank, chars_of, column_id, column_index, has_part, has_prefix, has_suffix, is_blank, lowercase,
    make_column_id, parse_column_id, same_text, text_contains, text_ends_with, text_has_char,
    text_starts_with, trim, trimmed, views,
};
use vstd::hash_map::StringHashMap;
use vstd::prelude::*;

verus! {

/// One condition of a rule: a field, a way of matching, and a pattern.
#[derive(Clone, Debug)]
pub struct MasterCondition {
    pub field: String,
    pub match_type: String,
    pub value: String,
}

/// A rule: when every condition holds of a row, the row gets the name.
#[derive(Clone, Debug)]
pub struct IpcMasterRule {
    pub rule_name: String,
    pub conditions: Vec<MasterCondition>,
    pub output_name: String,
}

/// An exception: a part number that gets a name whatever the rules say.
#[derive(Clone, Debug)]
pub struct ExceptionMasterEntry {
    pub part_no: String,
    pub output_name: String,
}

/// Whether `t[i..]` matches `p[j..]`, where a `*` in the pattern stands
/// for any run of characters, the empty one included, and every other
/// character for itself.
pub open spec fn glob_at(t: Seq<char>, p: Seq<char>, i: int, j: int) -> bool
    decreases p.len() - j, t.len() - i,
{
    if j >= p.len() {
        i >= t.len()
    } else if p[j] == '*' {
        glob_at(t, p, i, j + 1) || (i < t.len() && glob_at(t, p, i + 1, j))
    } else {
        i < t.len() && t[i] == p[j] && glob_at(t, p, i + 1, j + 1)
    }
}

/// Whether the whole of `t` matches the whole pattern `p`.
pub open spec fn glob_matches(t: Seq<char>, p: Seq<char>) -> bool {
    glob_at(t, p, 0, 0)
}

/// Decides whether `target` matches `pattern`, in which `*` stands for any
/// run of characters.
pub fn wildcard_match(target: &str, pattern: &str) -> (r: bool)
    ensures
        r == glob_matches(target@, pattern@),
{
    let t = chars_of(target);
    let p = chars_of(pattern);
    let n = t.len();
    let m = p.len();
    let mut next: Vec<bool> = Vec::new();
    let mut i: usize = 0;
    while i < n
        invariant
            i <= n,
            n == t.len(),
            m == p.len(),
            next.len() == i,
            forall|k: int| 0 <= k < i ==> #[trigger] next@[k] == glob_at(t@, p@, k, m as int),
        decreases n - i,
    {
        next.push(false);
        i += 1;
    }
    next.push(true);
    let mut j: usize = m;
    while j > 0
        invariant
            j <= m,
            n == t.len(),
            m == p.len(),
            next.len() == n + 1,
            forall|k: int| 0 <= k <= n ==> #[trigger] next@[k] == glob_at(t@, p@, k, j as int),
        decreases j,
    {
        j -= 1;
        let star = p[j] == '*';
        let mut current: Vec<bool> = Vec::new();
        let mut k: usize = 0;
        while k < n
            invariant
                k <= n,
                current.len() == k,
            decreases n - k,
        {
            current.push(false);
            k += 1;
        }
        current.push(star && next[n]);
        let mut i: usize = n;
        while i > 0
            invariant
                i <= n,
                j < m,
                n == t.len(),
                m == p.len(),
                star == (p@[j as int] == '*'),
                next.len() == n + 1,
                current.len() == n + 1,
                forall|k: int| 0 <= k <= n ==> #[trigger] next@[k] == glob_at(t@, p@, k, j + 1),
                forall|k: int|
                    i <= k <= n ==> #[trigger] current@[k] == glob_at(t@, p@, k, j as int),
            decreases i,
        {
            i -= 1;
            let here = if star {
                next[i] || current[i + 1]
            } else {
                t[i] == p[j] && next[i + 1]
            };
            current.set(i, here);
        }
        next = current;
    }
    next[0]
}

/// How a pattern is held against a value: as `match_type` says, trimmed
/// and in lowercase; where it says none of the known ways, as a glob if the
/// pattern holds a `*`, else as equality. Value and pattern are compared
/// in lowercase.
pub open spec fn value_fits(target: Seq<char>, pattern: Seq<char>, match_type: Seq<char>) -> bool {
    let t = lowercase(target);
    let p = lowercase(pattern);
    let how = lowercase(trimmed(match_type));
    if how == "equals"@ {
        t == p
    } else if how == "contains"@ {
        has_part(t, p)
    } else if how == "starts_with"@ {
        has_prefix(t, p)
    } else if how == "ends_with"@ {
        has_suffix(t, p)
    } else if how == "wildcard"@ {
        glob_matches(t, p)
    } else if pattern.contains('*') {
        glob_matches(t, p)
    } else {
        t == p
    }
}

/// Decides whether `target` fits `pattern` in the way `match_type` names.
pub fn value_matches(target: &str, pattern: &str, match_type: &str) -> (r: bool)
    ensures
        r == value_fits(target@, pattern@, match_type@),
{
    let t = target.to_lowercase();
    let p = pattern.to_lowercase();
    let how = trim(match_type).as_str().to_lowercase();
    if same_text(how.as_str(), "equals") {
        t == p
    } else if same_text(how.as_str(), "contains") {
        text_contains(t.as_str(), p.as_str())
    } else if same_text(how.as_str(), "starts_with") {
        text_starts_with(t.as_str(), p.as_str())
    } else if same_text(how.as_str(), "ends_with") {
        text_ends_with(t.as_str(), p.as_str())
    } else if same_text(how.as_str(), "wildcard") {
        wildcard_match(t.as_str(), p.as_str())
    } else if text_has_char(pattern, '*') {
        wildcard_match(t.as_str(), p.as_str())
    } else {
        t == p
    }
}

/// The value or nothing: an empty value counts as none.
pub open spec fn some_text(value: Seq<char>) -> Option<Seq<char>> {
    if value.len() == 0 {
        None
    } else {
        Some(value)
    }
}

/// The first of the first `n` columns whose header is `name` in lowercase
/// and under which the row holds something.
pub open spec fn named_column(
    headers: Seq<Seq<char>>,
    row: Seq<Seq<char>>,
    name: Seq<char>,
    n: int,
) -> Option<int>
    decreases n,
{
    if n <= 0 {
        None
    } else {
        match named_column(headers, row, name, n - 1) {
            Some(c) => Some(c),
            None => if lowercase(headers[n - 1]) == name && n - 1 < row.len() && !is_blank(
                row[n - 1],
            ) {
                Some(n - 1)
            } else {
                None
            },
        }
    }
}

/// What row `r` holds in the field `field`: for the names of the four roles
/// what the accessor reads, for any other name the cell under the first
/// header of that name that holds something, as it stands. Names are
/// trimmed and compared in lowercase.
pub open spec fn field_value(t: Table, r: int, field: Seq<char>) -> Option<Seq<char>> {
    let name = lowercase(trimmed(field));
    if name == "ref"@ || name == "reference"@ {
        some_text(t.key(r))
    } else if name == "part_no"@ || name == "partno"@ || name == "partnumber"@ || name
        == "部品型番"@ {
        some_text(t.first_value(r, role_part_no()))
    } else if name == "manufacturer"@ || name == "メーカー"@ {
        some_text(t.first_value(r, role_manufacturer()))
    } else if name == "value"@ || name == "値"@ {
        some_text(t.first_value(r, role_value()))
    } else if 0 <= r < t.rows.len() {
        match named_column(t.headers, t.rows[r], name, t.headers.len() as int) {
            Some(c) => Some(t.rows[r][c]),
            None => None,
        }
    } else {
        None
    }
}

/// The text, unless it is empty.
fn non_empty(value: String) -> (r: Option<String>)
    ensures
        match r {
            Some(v) => some_text(value@) == Some(v@),
            None => some_text(value@) is None,
        },
{
    if value.as_str().is_empty() {
        None
    } else {
        Some(value)
    }
}

/// Reads the field `field` of row `row_idx`.
pub fn get_field_value(parse: &ParseResult, row_idx: usize, field: &str) -> (r: Option<String>)
    ensures
        match r {
            Some(v) => field_value(parse@, row_idx as int, field@) == Some(v@),
            None => field_value(parse@, row_idx as int, field@) is None,
        },
{
    let name = trim(field).as_str().to_lowercase();
    let n = name.as_str();
    if same_text(n, "ref") || same_text(n, "reference") {
        non_empty(parse.get_ref(row_idx))
    } else if same_text(n, "part_no") || same_text(n, "partno") || same_text(n, "partnumber")
        || same_text(n, "部品型番") {
        non_empty(parse.get_part_no(row_idx))
    } else if same_text(n, "manufacturer") || same_text(n, "メーカー") {
        non_empty(parse.get_manufacturer(row_idx))
    } else if same_text(n, "value") || same_text(n, "値") {
        non_empty(parse.get_value(row_idx))
    } else if row_idx < parse.rows.len() {
        let row = &parse.rows[row_idx];
        let ghost t = parse@;
        let ghost srow = views(row@);
        proof {
            assert(t.rows[row_idx as int] == srow);
        }
        let mut c: usize = 0;
        while c < parse.headers.len()
            invariant
                c <= parse.headers.len(),
                t == parse@,
                srow == views(row@),
                0 <= row_idx < t.rows.len(),
                t.rows[row_idx as int] == srow,
                field_value(t, row_idx as int, field@) == match named_column(
                    t.headers,
                    srow,
                    name@,
                    t.headers.len() as int,
                ) {
                    Some(c) => Some(srow[c]),
                    None => None::<Seq<char>>,
                },
                named_column(t.headers, srow, name@, c as int) is None,
            decreases parse.headers.len() - c,
        {
            proof {
                assert(t.headers[c as int] == parse.headers@[c as int]@);
                if c < row.len() {
                    assert(srow[c as int] == row@[c as int]@);
                }
            }
            let header = parse.headers[c].as_str().to_lowercase();
            if header == name && c < row.len() && !blank(row[c].as_str()) {
                proof {
                    lemma_named_column_found(
                        t.headers,
                        srow,
                        name@,
                        c as int,
                        t.headers.len() as int,
                    );
                }
                return Some(row[c].clone());
            }
            c += 1;
        }
        None
    } else {
        None
    }
}

/// Once a column is the first that fits among the first `c + 1`, it is the
/// first that fits among any more.
pub proof fn lemma_named_column_found(
    headers: Seq<Seq<char>>,
    row: Seq<Seq<char>>,
    name: Seq<char>,
    c: int,
    n: int,
)
    requires
        0 <= c < n,
        named_column(headers, row, name, c) is None,
        lowercase(headers[c]) == name,
        c < row.len(),
        !is_blank(row[c]),
    ensures
        named_column(headers, row, name, n) == Some(c),
    decreases n - c,
{
    if n > c + 1 {
        lemma_named_column_found(headers, row, name, c, n - 1);
    }
}

/// Whether a condition holds of row `r`: the row has the field, and what it
/// holds there fits the pattern.
pub open spec fn condition_holds(t: Table, r: int, condition: MasterCondition) -> bool {
    match field_value(t, r, condition.field@) {
        Some(v) => value_fits(v, condition.value@, condition.match_type@),
        None => false,
    }
}

/// Decides whether a condition holds of row `row_idx`.
pub fn condition_matches(parse: &ParseResult, row_idx: usize, condition: &MasterCondition) -> (r:
    bool)
    ensures
        r == condition_holds(parse@, row_idx as int, *condition),
{
    match get_field_value(parse, row_idx, condition.field.as_str()) {
        Some(v) => value_matches(
            v.as_str(),
            condition.value.as_str(),
            condition.match_type.as_str(),
        ),
        None => false,
    }
}

/// Whether every condition of a rule holds of row `r`.
pub open spec fn rule_holds(t: Table, r: int, rule: IpcMasterRule) -> bool {
    forall|i: int|
        0 <= i < rule.conditions@.len() ==> condition_holds(t, r, #[trigger] rule.conditions@[i])
}

/// The last of the first `n` rules that holds of row `r`.
pub open spec fn last_rule(t: Table, r: int, rules: Seq<IpcMasterRule>, n: int) -> Option<int>
    decreases n,
{
    if n <= 0 {
        None
    } else if rule_holds(t, r, rules[n - 1]) {
        Some(n - 1)
    } else {
        last_rule(t, r, rules, n - 1)
    }
}

/// The name that the rules give to row `r`: that of the last rule that
/// holds, so that a later rule overrides an earlier one.
pub open spec fn rule_name_for(t: Table, r: int, rules: Seq<IpcMasterRule>) -> Option<Seq<char>> {
    match last_rule(t, r, rules, rules.len() as int) {
        Some(i) => Some(rules[i].output_name@),
        None => None,
    }
}

/// Decides whether every condition of a rule holds of a row.
fn rule_matches(parse: &ParseResult, row_idx: usize, rule: &IpcMasterRule) -> (r: bool)
    ensures
        r == rule_holds(parse@, row_idx as int, *rule),
{
    let mut i: usize = 0;
    while i < rule.conditions.len()
        invariant
            i <= rule.conditions.len(),
            forall|k: int|
                0 <= k < i ==> condition_holds(
                    parse@,
                    row_idx as int,
                    #[trigger] rule.conditions@[k],
                ),
        decreases rule.conditions.len() - i,
    {
        if !condition_matches(parse, row_idx, &rule.conditions[i]) {
            return false;
        }
        i += 1;
    }
    true
}

/// Finds the name that the rules give to row `row_idx`.
pub fn find_matching_ipc_name(
    parse: &ParseResult,
    row_idx: usize,
    rules: &Vec<IpcMasterRule>,
) -> (r: Option<String>)
    ensures
        match r {
            Some(name) => rule_name_for(parse@, row_idx as int, rules@) == Some(name@),
            None => rule_name_for(parse@, row_idx as int, rules@) is None,
        },
{
    let mut n: usize = rules.len();
    while n > 0
        invariant
            n <= rules.len(),
            last_rule(parse@, row_idx as int, rules@, rules.len() as int) == last_rule(
                parse@,
                row_idx as int,
                rules@,
                n as int,
            ),
        decreases n,
    {
        if rule_matches(parse, row_idx, &rules[n - 1]) {
            return Some(rules[n - 1].output_name.clone());
        }
        n -= 1;
    }
    None
}

/// The role under which the assigned names are kept.
pub open spec fn assigned_name_key() -> Seq<char> {
    "assigned_name"@
}

/// The name that the last of the first `n` exceptions gives to a part
/// number, given in lowercase. An exception without a part number gives
/// none.
pub open spec fn exception_for(exceptions: Seq<ExceptionMasterEntry>, lower: Seq<char>, n: int)
    -> Option<Seq<char>>
    decreases n,
{
    if n <= 0 {
        None
    } else if !is_blank(exceptions[n - 1].part_no@) && lowercase(exceptions[n - 1].part_no@)
        == lower {
        Some(exceptions[n - 1].output_name@)
    } else {
        exception_for(exceptions, lower, n - 1)
    }
}

/// The column in which the assigned names stand: the first column of their
/// role where the table has that role and its first id names a column, else
/// a new column after the last header.
pub open spec fn name_column(t: Table) -> nat {
    match role_position(t.roles, assigned_name_key()) {
        Some(e) => if t.roles[e].1.len() > 0 {
            match column_index(t.roles[e].1[0]) {
                Some(i) => i as nat,
                None => t.headers.len(),
            }
        } else {
            t.headers.len()
        },
        None => t.headers.len(),
    }
}

/// The name that row `r` gets: none without a part number; else that of
/// the exception for its part number, compared in lowercase; else that of
/// the rules.
pub open spec fn name_for_row(
    t: Table,
    r: int,
    rules: Seq<IpcMasterRule>,
    exceptions: Seq<ExceptionMasterEntry>,
) -> Option<Seq<char>> {
    let part = t.first_value(r, role_part_no());
    if part.len() == 0 {
        None
    } else {
        match exception_for(exceptions, lowercase(part), exceptions.len() as int) {
            Some(name) => Some(name),
            None => rule_name_for(t, r, rules),
        }
    }
}

/// A row with its name in column `col`: the row reaches at least to that
/// column, with empty cells where it was shorter, and holds the name there
/// if it got one.
pub open spec fn named_row(row: Seq<Seq<char>>, col: int, name: Option<Seq<char>>) -> Seq<
    Seq<char>,
> {
    let len = if row.len() > col {
        row.len() as int
    } else {
        col + 1
    };
    Seq::new(
        len as nat,
        |c: int|
            if c == col && name is Some {
                name->0
            } else if c < row.len() {
                row[c]
            } else {
                Seq::empty()
            },
    )
}

/// The table with the names that rules and exceptions assign to its rows.
/// A table without the role for assigned names gets it, with a header of
/// that name.
pub open spec fn with_names(
    t: Table,
    rules: Seq<IpcMasterRule>,
    exceptions: Seq<ExceptionMasterEntry>,
) -> Table {
    let col = name_column(t) as int;
    let known = role_position(t.roles, assigned_name_key()) is Some;
    Table {
        rows: Seq::new(
            t.rows.len(),
            |r: int| named_row(t.rows[r], col, name_for_row(t, r, rules, exceptions)),
        ),
        roles: if known {
            t.roles
        } else {
            t.roles.push((assigned_name_key(), seq![column_id(col as nat)]))
        },
        column_order: t.column_order,
        headers: if known {
            t.headers
        } else {
            t.headers.push(assigned_name_key())
        },
        columns: t.columns,
        row_numbers: t.row_numbers,
        diagnostics: t.diagnostics,
    }
}

/// The names that the exceptions give, by part number in lowercase.
fn exception_names(exceptions: &Vec<ExceptionMasterEntry>) -> (m: StringHashMap<String>)
    ensures
        forall|k: Seq<char>|
            #![trigger m@.contains_key(k)]
            #![trigger exception_for(exceptions@, k, exceptions.len() as int)]
            match exception_for(exceptions@, k, exceptions.len() as int) {
                Some(name) => m@.contains_key(k) && m@[k]@ == name,
                None => !m@.contains_key(k),
            },
{
    let mut m: StringHashMap<String> = StringHashMap::new();
    let mut i: usize = 0;
    while i < exceptions.len()
        invariant
            i <= exceptions.len(),
            forall|k: Seq<char>|
                #![trigger m@.contains_key(k)]
                #![trigger exception_for(exceptions@, k, i as int)]
                match exception_for(exceptions@, k, i as int) {
                    Some(name) => m@.contains_key(k) && m@[k]@ == name,
                    None => !m@.contains_key(k),
                },
        decreases exceptions.len() - i,
    {
        let entry = &exceptions[i];
        if !blank(entry.part_no.as_str()) {
            let ghost before = m@;
            let key = entry.part_no.as_str().to_lowercase();
            let ghost k0 = key@;
            m.insert(key, entry.output_name.clone());
            proof {
                assert forall|k: Seq<char>|
                    #![trigger m@.contains_key(k)]
                    #![trigger exception_for(exceptions@, k, i + 1)]
                    match exception_for(exceptions@, k, i + 1) {
                        Some(name) => m@.contains_key(k) && m@[k]@ == name,
                        None => !m@.contains_key(k),
                    } by {
                    if k != k0 {
                        assert(before.contains_key(k) == m@.contains_key(k));
                        assert(exception_for(exceptions@, k, i + 1) == exception_for(
                            exceptions@,
                            k,
                            i as int,
                        ));
                    }
                }
            }
        }
        i += 1;
    }
    m
}

/// Tells where the assigned names go, and whether the table knows their
/// role.
pub fn find_name_column(parse: &ParseResult) -> (r: (usize, bool))
    ensures
        r.0 == name_column(parse@),
        r.1 == (role_position(parse@.roles, assigned_name_key()) is Some),
{
    let known = parse.has_role_entry("assigned_name");
    let ids = parse.column_ids("assigned_name");
    proof {
        assert(parse@.headers.len() == parse.headers.len());
        assert(views(ids@) == role_ids(parse@.roles, assigned_name_key()));
        assert(views(ids@).len() == ids.len());
        if ids.len() > 0 {
            assert(views(ids@)[0] == ids@[0]@);
        }
    }
    if ids.len() > 0 {
        match parse_column_id(ids[0].as_str()) {
            Some(i) => (i, known),
            None => (parse.headers.len(), known),
        }
    } else {
        (parse.headers.len(), known)
    }
}

/// The characters of a text that may be missing.
pub open spec fn text_of(text: Option<String>) -> Option<Seq<char>> {
    match text {
        Some(s) => Some(s@),
        None => None,
    }
}

/// Puts `name`, if there is one, into column `col` of a copy of `row` that
/// reaches at least to that column.
fn name_row(row: &Vec<String>, col: usize, name: Option<String>) -> (r: Vec<String>)
    requires
        col < usize::MAX,
    ensures
        views(r@) == named_row(views(row@), col as int, text_of(name)),
{
    let mut out = copy_row(row);
    while out.len() <= col
        invariant
            col < usize::MAX,
            row.len() <= out.len() <= col + 1 || out.len() == row.len(),
            forall|k: int| 0 <= k < row.len() ==> (#[trigger] out@[k])@ == row@[k]@,
            forall|k: int|
                row.len() <= k < out.len() ==> (#[trigger] out@[k])@ == Seq::<char>::empty(),
        decreases col + 1 - out.len(),
    {
        out.push(String::new());
    }
    let ghost wanted = named_row(views(row@), col as int, text_of(name));
    match name {
        Some(n) => {
            out.set(col, n);
        },
        None => {},
    }
    proof {
        assert(views(out@) =~= wanted);
    }
    out
}

/// Assigns names to the rows of a table.
///
/// A row without a part number gets none. For the others an exception for
/// the part number decides, compared in lowercase, the last one where there
/// are several; where there is none, the last rule of which every condition
/// holds. The names go into the column of the role `assigned_name`; a table
/// without that role gets it, with a new column after its last header.
/// Everything else stays as it is. The assignment never fails.
///
/// Every row is made to reach the column of the names, so that column must
/// lie below the largest index there is; `find_name_column` tells where it
/// lies.
pub fn apply_ipc_names(
    parse: &ParseResult,
    ipc_rules: Vec<IpcMasterRule>,
    exceptions: Vec<ExceptionMasterEntry>,
) -> (r: Result<ParseResult, AppError>)
    requires
        name_column(parse@) < usize::MAX,
    ensures
        r is Ok,
        r->Ok_0@ == with_names(parse@, ipc_rules@, exceptions@),
{
    let ghost t = parse@;
    let names = exception_names(&exceptions);
    let (col, known) = find_name_column(parse);
    let mut column_roles = copy_roles(&parse.column_roles);
    let mut headers = copy_row(&parse.headers);
    if !known {
        let ghost before_roles = role_views(column_roles@);
        let ghost before_headers = views(headers@);
        headers.push("assigned_name".to_owned());
        let mut ids: Vec<String> = Vec::new();
        ids.push(make_column_id(col));
        column_roles.push(RoleColumns { role: "assigned_name".to_owned(), column_ids: ids });
        proof {
            assert(views(headers@) =~= before_headers.push(assigned_name_key()));
            assert(views(ids@) =~= seq![column_id(col as nat)]);
            assert(role_views(column_roles@) =~= before_roles.push(
                (assigned_name_key(), seq![column_id(col as nat)]),
            ));
        }
    }
    let mut rows: Vec<Vec<String>> = Vec::new();
    let mut r: usize = 0;
    while r < parse.rows.len()
        invariant
            r <= parse.rows.len(),
            t == parse@,
            col < usize::MAX,
            rows.len() == r,
            forall|k: Seq<char>|
                #![trigger names@.contains_key(k)]
                #![trigger exception_for(exceptions@, k, exceptions.len() as int)]
                match exception_for(exceptions@, k, exceptions.len() as int) {
                    Some(name) => names@.contains_key(k) && names@[k]@ == name,
                    None => !names@.contains_key(k),
                },
            forall|k: int|
                0 <= k < r ==> views((#[trigger] rows@[k])@) == named_row(
                    t.rows[k],
                    col as int,
                    name_for_row(t, k, ipc_rules@, exceptions@),
                ),
        decreases parse.rows.len() - r,
    {
        let part = parse.get_part_no(r);
        let name: Option<String> = if part.as_str().is_empty() {
            None
        } else {
            let lower = part.as_str().to_lowercase();
            let found = match names.get(lower.as_str()) {
                Some(n) => Some(n.clone()),
                None => None,
            };
            proof {
                let spec_found = exception_for(exceptions@, lower@, exceptions.len() as int);
                assert(spec_found is Some == names@.contains_key(lower@));
            }
            match found {
                Some(n) => Some(n),
                None => find_matching_ipc_name(parse, r, &ipc_rules),
            }
        };
        proof {
            assert(t.rows[r as int] == views(parse.rows@[r as int]@));
        }
        rows.push(name_row(&parse.rows[r], col, name));
        r += 1;
    }
    let result = ParseResult {
        rows,
        column_roles,
        column_order: copy_row(&parse.column_order),
        headers,
        columns: copy_columns(&parse.columns),
        row_numbers: parse.row_numbers.clone(),
        diagnostics: copy_diagnostics(&parse.diagnostics),
    };
    proof {
        let want = with_names(t, ipc_rules@, exceptions@);
        assert(result@.rows =~= want.rows);
    }
    Ok(result)
}

} // verus!
