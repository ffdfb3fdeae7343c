//! Reading of the netlist texts of CAD tools: pairs of a reference and a
//! part number, in one of six layouts.

use crate::builder::{push_warning, warning};
use crate::models::{
    count_rows, counted, diagnostic_views, grid, role_part_no, role_ref, AppError, ColumnMeta,
    Diagnostic, ParseError, ParseResult, RoleColumns, Table,
};
use crate::text::{
    begins, char_position, chars_of, column_id, find_char, find_from, found_at, has_part,
    has_prefix, holds, lines_of, list_references, listed, make_column_id, occurs_at, pieces,
    slice_of, split_lines, split_on, split_words, string_of, trailing_start,
    trim_bounds, trimmed, views, without_blanks, without_trailing, words,
};
use vstd::prelude::*;
use vstd::string::StringExecFns;

verus! {

/// The layouts of netlist texts.
#[derive(Clone, Copy, Debug, PartialEq, Eq, Structural)]
pub enum CadFormat {
    PADSECO,
    MSF,
    CCF,
    PWS,
    BD,
    PADSReport,
}

/// What a parser is to return: a table, or the message of its failure.
pub open spec fn is_outcome(
    r: Result<ParseResult, AppError>,
    wanted: Result<Table, Seq<char>>,
) -> bool {
    match wanted {
        Ok(t) => r is Ok && r->Ok_0@ == t,
        Err(m) => r is Err && r->Err_0.message@ == m,
    }
}

/// The table of a netlist: references in the first column, part numbers in
/// the second, rows numbered from 1.
pub open spec fn cad_table(rows: Seq<Seq<Seq<char>>>, diagnostics: Seq<Diagnostic>) -> Table {
    Table {
        rows,
        roles: seq![(role_ref(), seq![column_id(0)]), (role_part_no(), seq![column_id(1)])],
        column_order: seq![column_id(0), column_id(1)],
        headers: seq!["Ref"@, "Part No"@],
        columns: seq![(column_id(0), "Ref"@), (column_id(1), "Part No"@)],
        row_numbers: counted(rows.len()),
        diagnostics,
    }
}

/// The outcome of a parser that found `rows`: the table, or `message` where
/// it found none.
pub open spec fn table_or(
    rows: Seq<Seq<Seq<char>>>,
    diagnostics: Seq<Diagnostic>,
    message: Seq<char>,
) -> Result<Table, Seq<char>> {
    if rows.len() == 0 {
        Err(message)
    } else {
        Ok(cad_table(rows, diagnostics))
    }
}

/// Builds the table of a netlist, or fails with `message` where there are
/// no rows.
fn finish(rows: Vec<Vec<String>>, diagnostics: Vec<ParseError>, message: &str) -> (r: Result<
    ParseResult,
    AppError,
>)
    ensures
        is_outcome(r, table_or(grid(rows@), diagnostic_views(diagnostics@), message@)),
{
    if rows.len() == 0 {
        return Err(AppError::new(message));
    }
    let mut ref_ids: Vec<String> = Vec::new();
    ref_ids.push(make_column_id(0));
    let mut part_ids: Vec<String> = Vec::new();
    part_ids.push(make_column_id(1));
    let mut column_roles: Vec<RoleColumns> = Vec::new();
    column_roles.push(RoleColumns { role: "ref".to_owned(), column_ids: ref_ids });
    column_roles.push(RoleColumns { role: "part_no".to_owned(), column_ids: part_ids });
    let mut column_order: Vec<String> = Vec::new();
    column_order.push(make_column_id(0));
    column_order.push(make_column_id(1));
    let mut headers: Vec<String> = Vec::new();
    headers.push("Ref".to_owned());
    headers.push("Part No".to_owned());
    let mut columns: Vec<ColumnMeta> = Vec::new();
    columns.push(ColumnMeta { id: make_column_id(0), name: "Ref".to_owned() });
    columns.push(ColumnMeta { id: make_column_id(1), name: "Part No".to_owned() });
    let row_numbers = count_rows(rows.len());
    let result = ParseResult {
        rows,
        column_roles,
        column_order,
        headers,
        columns,
        row_numbers,
        diagnostics,
    };
    proof {
        let want = cad_table(result@.rows, result@.diagnostics);
        assert(result@.roles =~= want.roles) by {
            assert(views(result.column_roles@[0].column_ids@) =~= seq![column_id(0)]);
            assert(views(result.column_roles@[1].column_ids@) =~= seq![column_id(1)]);
        }
        assert(result@.column_order =~= want.column_order);
        assert(result@.headers =~= want.headers);
        assert(result@.columns =~= want.columns);
    }
    Ok(result)
}

/// The layout of a netlist text, told by its marks: the ECO mark anywhere;
/// else `$MSF` or `$CCF` at the start, white space aside; else a head line
/// of a report; else a colon and a semicolon; else plain pairs.
pub open spec fn format_of(content: Seq<char>) -> CadFormat {
    let t = trimmed(content);
    if has_part(t, "*PADS-ECO*"@) {
        CadFormat::PADSECO
    } else if has_prefix(t, "$MSF"@) {
        CadFormat::MSF
    } else if has_prefix(t, "$CCF"@) {
        CadFormat::CCF
    } else if has_part(t, "部品表１レポート"@) || has_part(t, "参照名"@) {
        CadFormat::PADSReport
    } else if content.contains(':') && content.contains(';') {
        CadFormat::PWS
    } else {
        CadFormat::BD
    }
}

/// Whether the character `c` stands in `v`.
fn has_char(v: &Vec<char>, c: char) -> (r: bool)
    ensures
        r == v@.contains(c),
{
    let mut i: usize = 0;
    while i < v.len()
        invariant
            i <= v.len(),
            forall|k: int| 0 <= k < i ==> v@[k] != c,
        decreases v.len() - i,
    {
        if v[i] == c {
            return true;
        }
        i += 1;
    }
    false
}

/// The trimmed part of `v`.
fn trimmed_chars(v: &Vec<char>) -> (r: Vec<char>)
    ensures
        r@ == trimmed(v@),
{
    let (a, b) = trim_bounds(v);
    let mut out: Vec<char> = Vec::new();
    let mut i: usize = a;
    while i < b
        invariant
            a <= i <= b <= v.len(),
            out@ == v@.subrange(a as int, i as int),
        decreases b - i,
    {
        out.push(v[i]);
        i += 1;
    }
    out
}

/// Tells the layout of a netlist text. Every text has one.
pub fn detect_cad_format(content: &str) -> (r: Result<CadFormat, AppError>)
    ensures
        r is Ok,
        r->Ok_0 == format_of(content@),
{
    let v = chars_of(content);
    let t = trimmed_chars(&v);
    if holds(&t, "*PADS-ECO*") {
        Ok(CadFormat::PADSECO)
    } else if begins(&t, "$MSF") {
        Ok(CadFormat::MSF)
    } else if begins(&t, "$CCF") {
        Ok(CadFormat::CCF)
    } else if holds(&t, "部品表１レポート") || holds(&t, "参照名") {
        Ok(CadFormat::PADSReport)
    } else if has_char(&v, ':') && has_char(&v, ';') {
        Ok(CadFormat::PWS)
    } else {
        Ok(CadFormat::BD)
    }
}

/// The three layouts that hold a pair on each line.
#[derive(Clone, Copy, Debug, PartialEq, Eq, Structural)]
pub enum PairLayout {
    Eco,
    Plain,
    Report,
}

/// Whether a trimmed line holds no pair to read: an empty line; in the ECO
/// layout a line that starts with `*`; in a report a head line or a rule.
pub open spec fn passed_over(line: Seq<char>, layout: PairLayout) -> bool {
    line.len() == 0 || match layout {
        PairLayout::Eco => line[0] == '*',
        PairLayout::Plain => false,
        PairLayout::Report => has_part(line, "部品表１レポート"@) || has_part(line, "参照名"@)
            || has_prefix(line, "---"@) || has_prefix(line, "==="@),
    }
}

/// The pair that a line of at least two words holds: the first word, and
/// the second, or in a report the last.
pub open spec fn pair_of(line: Seq<char>, layout: PairLayout) -> Seq<Seq<char>> {
    let w = words(line);
    match layout {
        PairLayout::Report => seq![w[0], w[w.len() - 1]],
        _ => seq![w[0], w[1]],
    }
}

/// What is said of a line with fewer than two words.
pub open spec fn short_line_message(line: Seq<char>, layout: PairLayout) -> Seq<char> {
    match layout {
        PairLayout::Report => "列数が不足しています: "@ + line,
        _ => "列数が不足しています（最低2列必要）: "@ + line,
    }
}

/// The pairs held by the lines `from..n`.
pub open spec fn pair_rows(lines: Seq<Seq<char>>, layout: PairLayout, from: int, n: int) -> Seq<
    Seq<Seq<char>>,
>
    decreases n - from,
{
    if n <= from {
        Seq::empty()
    } else {
        let before = pair_rows(lines, layout, from, n - 1);
        let line = trimmed(lines[n - 1]);
        if passed_over(line, layout) || words(line).len() < 2 {
            before
        } else {
            before.push(pair_of(line, layout))
        }
    }
}

/// The warnings for those of the lines `from..n` that hold fewer than two
/// words, each with the number of its line.
pub open spec fn pair_findings(lines: Seq<Seq<char>>, layout: PairLayout, from: int, n: int) -> Seq<
    Diagnostic,
>
    decreases n - from,
{
    if n <= from {
        Seq::empty()
    } else {
        let before = pair_findings(lines, layout, from, n - 1);
        let line = trimmed(lines[n - 1]);
        if passed_over(line, layout) || words(line).len() >= 2 {
            before
        } else {
            before.push(warning(short_line_message(line, layout), Some(n as usize), None))
        }
    }
}

/// Decides whether a trimmed line holds no pair to read.
fn skip_line(line: &Vec<char>, layout: PairLayout) -> (r: bool)
    ensures
        r == passed_over(line@, layout),
{
    if line.len() == 0 {
        return true;
    }
    match layout {
        PairLayout::Eco => line[0] == '*',
        PairLayout::Plain => false,
        PairLayout::Report => holds(line, "部品表１レポート") || holds(line, "参照名") || begins(
            line,
            "---",
        ) || begins(line, "==="),
    }
}

/// Reads the pairs of the lines `from..to`.
fn read_pairs(lines: &Vec<Vec<char>>, layout: PairLayout, from: usize, to: usize) -> (r: (
    Vec<Vec<String>>,
    Vec<ParseError>,
))
    requires
        from <= to <= lines.len(),
    ensures
        grid(r.0@) == pair_rows(line_views(lines@), layout, from as int, to as int),
        diagnostic_views(r.1@) == pair_findings(line_views(lines@), layout, from as int, to as int),
{
    let ghost ls = line_views(lines@);
    let mut rows: Vec<Vec<String>> = Vec::new();
    let mut findings: Vec<ParseError> = Vec::new();
    proof {
        assert(grid(rows@) =~= pair_rows(ls, layout, from as int, from as int));
        assert(diagnostic_views(findings@) =~= pair_findings(ls, layout, from as int, from as int));
    }
    let mut i: usize = from;
    while i < to
        invariant
            from <= i <= to <= lines.len(),
            ls == line_views(lines@),
            grid(rows@) == pair_rows(ls, layout, from as int, i as int),
            diagnostic_views(findings@) == pair_findings(ls, layout, from as int, i as int),
        decreases to - i,
    {
        let line = trimmed_chars(&lines[i]);
        proof {
            assert(ls[i as int] == lines@[i as int]@);
        }
        if !skip_line(&line, layout) {
            let parts = split_words(&line);
            if parts.len() < 2 {
                let text = string_of(&line, 0, line.len());
                proof {
                    assert(line@.subrange(0, line.len() as int) =~= line@);
                }
                let mut message = match layout {
                    PairLayout::Report => "列数が不足しています: ".to_owned(),
                    _ => "列数が不足しています（最低2列必要）: ".to_owned(),
                };
                message.append(text.as_str());
                push_warning(&mut findings, message, Some(i + 1), None);
            } else {
                let second = match layout {
                    PairLayout::Report => parts[parts.len() - 1].clone(),
                    _ => parts[1].clone(),
                };
                let mut pair: Vec<String> = Vec::new();
                pair.push(parts[0].clone());
                pair.push(second);
                let ghost before = grid(rows@);
                proof {
                    let w = views(parts@);
                    assert(w[0] == parts@[0]@);
                    assert(w[1] == parts@[1]@);
                    assert(w[w.len() - 1] == parts@[parts.len() - 1]@);
                    assert(views(pair@) =~= pair_of(line@, layout));
                }
                rows.push(pair);
                proof {
                    assert(grid(rows@) =~= before.push(pair_of(line@, layout)));
                }
            }
        }
        i += 1;
    }
    (rows, findings)
}

/// The lines, each by its characters.
pub open spec fn line_views(lines: Seq<Vec<char>>) -> Seq<Seq<char>> {
    Seq::new(lines.len(), |i: int| lines[i]@)
}

/// The first of the first `n` lines that is `text`, white space aside.
pub open spec fn first_line(lines: Seq<Seq<char>>, text: Seq<char>, n: int) -> Option<int>
    decreases n,
{
    if n <= 0 {
        None
    } else {
        match first_line(lines, text, n - 1) {
            Some(i) => Some(i),
            None => if trimmed(lines[n - 1]) == text {
                Some(n - 1)
            } else {
                None
            },
        }
    }
}

/// A line that is `text`, with none before it, is the first.
pub proof fn lemma_first_line_found(lines: Seq<Seq<char>>, text: Seq<char>, i: int, n: int)
    requires
        0 <= i < n,
        first_line(lines, text, i) is None,
        trimmed(lines[i]) == text,
    ensures
        first_line(lines, text, n) == Some(i),
    decreases n - i,
{
    if n > i + 1 {
        lemma_first_line_found(lines, text, i, n - 1);
    }
}

/// Finds the first of the first `n` lines that is `text`, white space
/// aside.
fn find_line(lines: &Vec<Vec<char>>, text: &str, n: usize) -> (r: Option<usize>)
    requires
        n <= lines.len(),
    ensures
        match r {
            Some(i) => i < n && first_line(line_views(lines@), text@, n as int) == Some(i as int),
            None => first_line(line_views(lines@), text@, n as int) is None,
        },
{
    let ghost ls = line_views(lines@);
    let wanted = chars_of(text);
    let mut i: usize = 0;
    while i < n
        invariant
            i <= n <= lines.len(),
            ls == line_views(lines@),
            wanted@ == text@,
            first_line(ls, text@, i as int) is None,
        decreases n - i,
    {
        let line = trimmed_chars(&lines[i]);
        proof {
            assert(ls[i as int] == lines@[i as int]@);
        }
        if same_chars(&line, &wanted) {
            proof {
                lemma_first_line_found(ls, text@, i as int, n as int);
            }
            return Some(i);
        }
        i += 1;
    }
    None
}

/// Whether two runs of characters are the same.
fn same_chars(a: &Vec<char>, b: &Vec<char>) -> (r: bool)
    ensures
        r == (a@ == b@),
{
    if a.len() != b.len() {
        return false;
    }
    let mut i: usize = 0;
    while i < a.len()
        invariant
            i <= a.len(),
            a.len() == b.len(),
            forall|k: int| 0 <= k < i ==> a@[k] == b@[k],
        decreases a.len() - i,
    {
        if a[i] != b[i] {
            return false;
        }
        i += 1;
    }
    proof {
        assert(a@ =~= b@);
    }
    true
}

/// Where the ECO text ends: at its first `*END*` line, or after its last
/// line.
pub open spec fn eco_end(lines: Seq<Seq<char>>) -> int {
    match first_line(lines, "*END*"@, lines.len() as int) {
        Some(i) => i,
        None => lines.len() as int,
    }
}

/// What an ECO text holds: the pairs on the lines between the first
/// `*PART*` line and the end. Without a pair it holds nothing.
pub open spec fn eco_outcome(content: Seq<char>) -> Result<Table, Seq<char>> {
    let lines = lines_of(content);
    let end = eco_end(lines);
    match first_line(lines, "*PART*"@, end) {
        Some(p) => table_or(
            pair_rows(lines, PairLayout::Eco, p + 1, end),
            pair_findings(lines, PairLayout::Eco, p + 1, end),
            "有効な*PART*セクションが見つかりませんでした。"@,
        ),
        None => Err("有効な*PART*セクションが見つかりませんでした。"@),
    }
}

/// Reads a text in the ECO layout.
pub fn parse_pads_eco_format(content: &str) -> (r: Result<ParseResult, AppError>)
    ensures
        is_outcome(r, eco_outcome(content@)),
{
    let lines = split_lines(content);
    proof {
        assert(line_views(lines@) =~= lines_of(content@));
    }
    let end = match find_line(&lines, "*END*", lines.len()) {
        Some(i) => i,
        None => lines.len(),
    };
    match find_line(&lines, "*PART*", end) {
        Some(p) => {
            let (rows, findings) = read_pairs(&lines, PairLayout::Eco, p + 1, end);
            finish(rows, findings, "有効な*PART*セクションが見つかりませんでした。")
        },
        None => Err(AppError::new("有効な*PART*セクションが見つかりませんでした。")),
    }
}

/// What a text of plain pairs holds: the pairs on its lines.
pub open spec fn bd_outcome(content: Seq<char>) -> Result<Table, Seq<char>> {
    let lines = lines_of(content);
    table_or(
        pair_rows(lines, PairLayout::Plain, 0, lines.len() as int),
        pair_findings(lines, PairLayout::Plain, 0, lines.len() as int),
        "有効なBDデータが見つかりませんでした。"@,
    )
}

/// Reads a text of plain pairs.
pub fn parse_bd_format(content: &str) -> (r: Result<ParseResult, AppError>)
    ensures
        is_outcome(r, bd_outcome(content@)),
{
    let lines = split_lines(content);
    proof {
        assert(line_views(lines@) =~= lines_of(content@));
    }
    let (rows, findings) = read_pairs(&lines, PairLayout::Plain, 0, lines.len());
    finish(rows, findings, "有効なBDデータが見つかりませんでした。")
}

/// What a report holds: the pairs on its lines, the head lines and rules
/// aside.
pub open spec fn report_outcome(content: Seq<char>) -> Result<Table, Seq<char>> {
    let lines = lines_of(content);
    table_or(
        pair_rows(lines, PairLayout::Report, 0, lines.len() as int),
        pair_findings(lines, PairLayout::Report, 0, lines.len() as int),
        "有効なPADSレポートデータが見つかりませんでした。"@,
    )
}

/// Reads a report.
pub fn parse_pads_report_format(content: &str) -> (r: Result<ParseResult, AppError>)
    ensures
        is_outcome(r, report_outcome(content@)),
{
    let lines = split_lines(content);
    proof {
        assert(line_views(lines@) =~= lines_of(content@));
    }
    let (rows, findings) = read_pairs(&lines, PairLayout::Report, 0, lines.len());
    finish(rows, findings, "有効なPADSレポートデータが見つかりませんでした。")
}

/// The rows for the references listed in `refs`, each with the part number
/// `part`.
pub open spec fn listed_rows(refs: Seq<char>, part: Seq<char>) -> Seq<Seq<Seq<char>>> {
    Seq::new(listed(refs).len(), |k: int| seq![listed(refs)[k], part])
}

/// Appends the rows for the references listed in `refs`.
fn push_listed(rows: &mut Vec<Vec<String>>, refs: &Vec<char>, part: &str)
    ensures
        grid(final(rows)@) == grid(old(rows)@) + listed_rows(refs@, part@),
{
    let ghost start = grid(rows@);
    let ghost want = listed_rows(refs@, part@);
    let text = string_of(refs, 0, refs.len());
    proof {
        assert(refs@.subrange(0, refs.len() as int) =~= refs@);
    }
    let names = list_references(text.as_str());
    proof {
        assert(start + want.take(0) =~= start);
    }
    let mut k: usize = 0;
    while k < names.len()
        invariant
            k <= names.len(),
            views(names@) == listed(refs@),
            want == listed_rows(refs@, part@),
            grid(rows@) == start + want.take(k as int),
        decreases names.len() - k,
    {
        let mut row: Vec<String> = Vec::new();
        row.push(names[k].clone());
        row.push(part.to_owned());
        let ghost before = grid(rows@);
        proof {
            assert(views(names@)[k as int] == names@[k as int]@);
            assert(views(row@) =~= want[k as int]);
        }
        rows.push(row);
        proof {
            assert(grid(rows@) =~= before.push(want[k as int]));
            assert(want.take(k + 1) =~= want.take(k as int).push(want[k as int]));
            assert(before.push(want[k as int]) =~= start + want.take(k + 1));
        }
        k += 1;
    }
    proof {
        assert(want.take(names.len() as int) =~= want);
    }
}

/// The rows that one line of a PWS text holds: spaces are left out; a
/// comment, a line with a brace and a line without a colon hold nothing;
/// else the part number stands before the colon and the references after
/// it, up to the semicolons at the end.
pub open spec fn pws_line_rows(line: Seq<char>) -> Seq<Seq<Seq<char>>> {
    let bare = without_blanks(trimmed(line));
    if bare.len() == 0 || has_prefix(bare, "/*"@) || bare.contains('{') || bare.contains('}') {
        Seq::empty()
    } else {
        match char_position(bare, ':') {
            Some(i) => listed_rows(
                without_trailing(trimmed(bare.skip(i + 1)), ';'),
                trimmed(bare.take(i)),
            ),
            None => Seq::empty(),
        }
    }
}

/// The rows that the first `n` lines of a PWS text hold.
pub open spec fn pws_rows(lines: Seq<Seq<char>>, n: int) -> Seq<Seq<Seq<char>>>
    decreases n,
{
    if n <= 0 {
        Seq::empty()
    } else {
        pws_rows(lines, n - 1) + pws_line_rows(lines[n - 1])
    }
}

/// What a PWS text holds.
pub open spec fn pws_outcome(content: Seq<char>) -> Result<Table, Seq<char>> {
    let lines = lines_of(content);
    table_or(
        pws_rows(lines, lines.len() as int),
        Seq::empty(),
        "有効なPWSデータが見つかりませんでした。"@,
    )
}

/// `v` without its spaces.
fn without_blank_chars(v: &Vec<char>) -> (r: Vec<char>)
    ensures
        r@ == without_blanks(v@),
{
    let ghost keep = |c: char| c != ' ';
    let mut out: Vec<char> = Vec::new();
    proof {
        reveal(Seq::filter);
        assert(v@.take(0).filter(keep) =~= Seq::<char>::empty());
    }
    let mut i: usize = 0;
    while i < v.len()
        invariant
            i <= v.len(),
            keep == (|c: char| c != ' '),
            out@ == v@.take(i as int).filter(keep),
        decreases v.len() - i,
    {
        proof {
            reveal(Seq::filter);
            let next = v@.take(i + 1);
            assert(next.drop_last() =~= v@.take(i as int));
            assert(next.last() == v@[i as int]);
        }
        if v[i] != ' ' {
            out.push(v[i]);
        }
        i += 1;
    }
    proof {
        assert(v@.take(v.len() as int) =~= v@);
    }
    out
}

/// The part number before position `colon` of `v` and the references after
/// it, both trimmed.
fn split_at_colon(v: &Vec<char>, colon: usize) -> (r: (String, Vec<char>))
    requires
        colon < v.len(),
    ensures
        r.0@ == trimmed(v@.take(colon as int)),
        r.1@ == trimmed(v@.skip(colon + 1)),
{
    let head = slice_of(v, 0, colon);
    let tail = slice_of(v, colon + 1, v.len());
    proof {
        assert(v@.subrange(0, colon as int) =~= v@.take(colon as int));
        assert(v@.subrange(colon + 1, v.len() as int) =~= v@.skip(colon + 1));
    }
    let head_trimmed = trimmed_chars(&head);
    let part = string_of(&head_trimmed, 0, head_trimmed.len());
    proof {
        assert(head_trimmed@.subrange(0, head_trimmed.len() as int) =~= head_trimmed@);
    }
    (part, trimmed_chars(&tail))
}

/// Reads a text in the PWS layout.
pub fn parse_pws_format(content: &str) -> (r: Result<ParseResult, AppError>)
    ensures
        is_outcome(r, pws_outcome(content@)),
{
    let lines = split_lines(content);
    let ghost ls = lines_of(content@);
    proof {
        assert(line_views(lines@) =~= ls);
    }
    let mut rows: Vec<Vec<String>> = Vec::new();
    proof {
        assert(grid(rows@) =~= pws_rows(ls, 0));
    }
    let mut i: usize = 0;
    while i < lines.len()
        invariant
            i <= lines.len(),
            ls == line_views(lines@),
            grid(rows@) == pws_rows(ls, i as int),
        decreases lines.len() - i,
    {
        let bare = without_blank_chars(&trimmed_chars(&lines[i]));
        let ghost before = grid(rows@);
        proof {
            assert(ls[i as int] == lines@[i as int]@);
        }
        if bare.len() == 0 || begins(&bare, "/*") || has_char(&bare, '{') || has_char(&bare, '}') {
            proof {
                assert(before + pws_line_rows(ls[i as int]) =~= before);
            }
        } else {
            match find_char(&bare, ':') {
                Some(colon) => {
                    let (part, refs) = split_at_colon(&bare, colon);
                    let end = trailing_start(&refs, ';');
                    let kept = slice_of(&refs, 0, end);
                    proof {
                        assert(refs@.subrange(0, end as int) =~= refs@.take(end as int));
                    }
                    push_listed(&mut rows, &kept, part.as_str());
                },
                None => {
                    proof {
                        assert(before + pws_line_rows(ls[i as int]) =~= before);
                    }
                },
            }
        }
        i += 1;
    }
    let findings: Vec<ParseError> = Vec::new();
    proof {
        assert(diagnostic_views(findings@) =~= Seq::empty());
    }
    finish(rows, findings, "有効なPWSデータが見つかりませんでした。")
}

/// How deep in braces the text stands after the first `n` characters of
/// `s`, which start one brace deep.
pub open spec fn depth_after(s: Seq<char>, n: int) -> int
    decreases n,
{
    if n <= 0 {
        1
    } else if s[n - 1] == '{' {
        depth_after(s, n - 1) + 1
    } else if s[n - 1] == '}' {
        depth_after(s, n - 1) - 1
    } else {
        depth_after(s, n - 1)
    }
}

/// The position, among the first `n` characters of `s`, of the brace that
/// closes the one before `s`.
pub open spec fn closing_brace(s: Seq<char>, n: int) -> Option<int>
    decreases n,
{
    if n <= 0 {
        None
    } else {
        match closing_brace(s, n - 1) {
            Some(i) => Some(i),
            None => if depth_after(s, n) == 0 {
                Some(n - 1)
            } else {
                None
            },
        }
    }
}

/// A brace that brings the depth to zero, with none before it, is the
/// closing one.
pub proof fn lemma_closing_found(s: Seq<char>, i: int, n: int)
    requires
        0 <= i < n,
        closing_brace(s, i) is None,
        depth_after(s, i + 1) == 0,
    ensures
        closing_brace(s, n) == Some(i),
    decreases n - i,
{
    if n > i + 1 {
        lemma_closing_found(s, i, n - 1);
    }
}

/// Finds the brace that closes the one before `v[from..]`.
fn find_closing(v: &Vec<char>, from: usize) -> (r: Option<usize>)
    requires
        from <= v.len(),
    ensures
        match r {
            Some(i) => from + i < v.len() && closing_brace(
                v@.skip(from as int),
                v.len() - from,
            ) == Some(i as int),
            None => closing_brace(v@.skip(from as int), v.len() - from) is None,
        },
{
    let ghost s = v@.skip(from as int);
    let mut depth: u128 = 1;
    let mut i: usize = 0;
    while from + i < v.len()
        invariant
            from + i <= v.len(),
            s == v@.skip(from as int),
            depth == depth_after(s, i as int),
            depth >= 1,
            depth <= i + 1,
            closing_brace(s, i as int) is None,
        decreases v.len() - from - i,
    {
        let c = v[from + i];
        proof {
            assert(s[i as int] == c);
        }
        if c == '{' {
            depth += 1;
        } else if c == '}' {
            depth -= 1;
            if depth == 0 {
                proof {
                    lemma_closing_found(s, i as int, v.len() - from);
                }
                return Some(i);
            }
        }
        i += 1;
    }
    None
}

/// The rows that one group of a section holds: the part number stands
/// before the colon, the references after it. A group without a colon
/// holds nothing.
pub open spec fn group_rows(group: Seq<char>) -> Seq<Seq<Seq<char>>> {
    let t = trimmed(group);
    match char_position(t, ':') {
        Some(i) => listed_rows(trimmed(t.skip(i + 1)), trimmed(t.take(i))),
        None => Seq::empty(),
    }
}

/// The rows that the first `n` groups hold.
pub open spec fn groups_rows(groups: Seq<Seq<char>>, n: int) -> Seq<Seq<Seq<char>>>
    decreases n,
{
    if n <= 0 {
        Seq::empty()
    } else {
        groups_rows(groups, n - 1) + group_rows(groups[n - 1])
    }
}

/// The mark that ends a group.
pub open spec fn semicolon() -> Seq<char> {
    seq![';']
}

/// What opens the section `name`.
pub open spec fn section_opening(name: Seq<char>) -> Seq<char> {
    name + " {"@
}

/// What a text holds in its section `name`: the groups between the first
/// opening of the section and the brace that closes it, cut at the
/// semicolons. The text must hold the section; the section must be closed,
/// and not at once; and it must hold a row.
pub open spec fn section_outcome(content: Seq<char>, name: Seq<char>) -> Result<Table, Seq<char>> {
    let opening = section_opening(name);
    if !has_part(content, opening) {
        Err(name + "セクションが見つかりませんでした。"@)
    } else {
        let at = choose|at: int| found_at(content, opening, 0, at);
        let inside = content.skip(at + opening.len());
        match closing_brace(inside, inside.len() as int) {
            Some(end) if end > 0 => {
                let groups = pieces(inside.take(end), semicolon());
                table_or(
                    groups_rows(groups, groups.len() as int),
                    Seq::empty(),
                    "有効なデータが見つかりませんでした。"@,
                )
            },
            _ => Err(name + "セクションの閉じ括弧が見つかりません。"@),
        }
    }
}

/// Reads the section `section_name` of a text in which part numbers stand
/// before their references.
pub fn parse_reverse_structure(content: &str, section_name: &str) -> (r: Result<
    ParseResult,
    AppError,
>)
    ensures
        is_outcome(r, section_outcome(content@, section_name@)),
{
    let v = chars_of(content);
    let mut opening_text = section_name.to_owned();
    opening_text.append(" {");
    let opening = chars_of(opening_text.as_str());
    let at = match find_from(&v, &opening, 0) {
        Some(at) => at,
        None => {
            let mut message = section_name.to_owned();
            message.append("セクションが見つかりませんでした。");
            proof {
                assert(!has_part(v@, opening@)) by {
                    if has_part(v@, opening@) {
                        let k = choose|k: int| occurs_at(v@, opening@, k);
                        assert(0 <= k);
                    }
                }
            }
            return Err(AppError::new(message.as_str()));
        },
    };
    proof {
        let chosen = choose|x: int| found_at(v@, opening@, 0, x);
        assert(found_at(v@, opening@, 0, at as int));
        assert(occurs_at(v@, opening@, at as int));
        assert(at + opening.len() <= v.len());
        assert(chosen == at) by {
            if chosen < at {
                assert(!occurs_at(v@, opening@, chosen));
            }
            if at < chosen {
                assert(!occurs_at(v@, opening@, at as int));
            }
        }
    }
    let start = at + opening.len();
    let ghost inside = v@.skip(start as int);
    let end = match find_closing(&v, start) {
        Some(end) => end,
        None => 0,
    };
    if end == 0 {
        let mut message = section_name.to_owned();
        message.append("セクションの閉じ括弧が見つかりません。");
        return Err(AppError::new(message.as_str()));
    }
    let section = slice_of(&v, start, start + end);
    proof {
        assert(v@.subrange(start as int, start + end) =~= inside.take(end as int));
    }
    let mut marks: Vec<char> = Vec::new();
    marks.push(';');
    proof {
        assert(marks@ =~= semicolon());
    }
    let groups = split_on(&section, &marks);
    let ghost gs = pieces(section@, semicolon());
    let mut rows: Vec<Vec<String>> = Vec::new();
    proof {
        assert(grid(rows@) =~= groups_rows(gs, 0));
    }
    let mut g: usize = 0;
    while g < groups.len()
        invariant
            g <= groups.len(),
            groups@.len() == gs.len(),
            forall|k: int| 0 <= k < groups@.len() ==> (#[trigger] groups@[k])@ == gs[k],
            grid(rows@) == groups_rows(gs, g as int),
        decreases groups.len() - g,
    {
        let group = trimmed_chars(&groups[g]);
        let ghost before = grid(rows@);
        proof {
            assert(groups@[g as int]@ == gs[g as int]);
        }
        match find_char(&group, ':') {
            Some(colon) => {
                let (part, refs) = split_at_colon(&group, colon);
                push_listed(&mut rows, &refs, part.as_str());
            },
            None => {
                proof {
                    assert(before + group_rows(gs[g as int]) =~= before);
                }
            },
        }
        g += 1;
    }
    let findings: Vec<ParseError> = Vec::new();
    proof {
        assert(diagnostic_views(findings@) =~= Seq::empty());
    }
    finish(rows, findings, "有効なデータが見つかりませんでした。")
}

/// Reads a text in the MSF layout: its section `SHAPE`.
pub fn parse_msf_shape_format(content: &str) -> (r: Result<ParseResult, AppError>)
    ensures
        is_outcome(r, section_outcome(content@, "SHAPE"@)),
{
    parse_reverse_structure(content, "SHAPE")
}

/// Reads a text in the CCF layout: its section `DEFINITION`.
pub fn parse_ccf_definition_format(content: &str) -> (r: Result<ParseResult, AppError>)
    ensures
        is_outcome(r, section_outcome(content@, "DEFINITION"@)),
{
    parse_reverse_structure(content, "DEFINITION")
}

/// What a netlist text holds, read in the layout that its marks tell.
pub open spec fn cad_outcome(content: Seq<char>) -> Result<Table, Seq<char>> {
    match format_of(content) {
        CadFormat::PADSECO => eco_outcome(content),
        CadFormat::MSF => section_outcome(content, "SHAPE"@),
        CadFormat::CCF => section_outcome(content, "DEFINITION"@),
        CadFormat::PWS => pws_outcome(content),
        CadFormat::BD => bd_outcome(content),
        CadFormat::PADSReport => report_outcome(content),
    }
}

/// Reads a netlist text in the layout that its marks tell.
pub fn parse_cad_text(content: &str) -> (r: Result<ParseResult, AppError>)
    ensures
        is_outcome(r, cad_outcome(content@)),
{
    match detect_cad_format(content) {
        Ok(CadFormat::PADSECO) => parse_pads_eco_format(content),
        Ok(CadFormat::MSF) => parse_msf_shape_format(content),
        Ok(CadFormat::CCF) => parse_ccf_definition_format(content),
        Ok(CadFormat::PWS) => parse_pws_format(content),
        Ok(CadFormat::BD) => parse_bd_format(content),
        Ok(CadFormat::PADSReport) => parse_pads_report_format(content),
        Err(e) => Err(e),
    }
}

} // verus!
