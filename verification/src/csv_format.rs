//! Tables as CSV text: written and read with the `csv` crate.

use crate::builder::{build_bom_rows, classified, has_content, no_rows_message};
use crate::exporters::{comment_of, diff_comment, text_map};
use crate::models::{copy_row, grid, AppError, ParseResult, Table};
use crate::text::{has_prefix, views};
use vstd::hash_map::StringHashMap;
use vstd::prelude::*;
use vstd::string::StringExecFns;
use vstd::utf8::{decode_utf8, valid_utf8};

verus! {

/// A writer of the `csv` crate that writes into memory, with the crate's
/// own settings: comma, quotes where needed, every record as long as the
/// first.
///
/// A value of this type is a writer that has refused no record: one that
/// refuses a record is not handed back, so what is left in it of the
/// refused record is never seen.
#[verifier::external_body]
pub struct CsvWriter {
    inner: ::csv::Writer<Vec<u8>>,
}

/// The reader of the `csv` crate.
#[verifier::external_type_specification]
#[verifier::external_body]
#[verifier::reject_recursive_types(R)]
pub struct ExReader<R>(::csv::Reader<R>);

/// The error of the `csv` crate.
#[verifier::external_type_specification]
#[verifier::external_body]
pub struct ExCsvError(::csv::Error);

/// The records that a writer has taken, in order. Every writer has taken
/// each of its records whole.
pub uninterp spec fn written(w: CsvWriter) -> Seq<Seq<Seq<char>>>;

/// The bytes that `csv::Writer` makes of a sequence of records.
pub uninterp spec fn csv_bytes(records: Seq<Seq<Seq<char>>>) -> Seq<u8>;

/// What `csv::Reader` reads out of a sequence of bytes, read by read until
/// the input ends: a record, or nothing for a read that fails.
pub uninterp spec fn csv_items(bytes: Seq<u8>) -> Seq<Option<Seq<Seq<char>>>>;

/// What a reader has still to read.
pub uninterp spec fn pending(r: ::csv::Reader<&[u8]>) -> Seq<Option<Seq<Seq<char>>>>;

/// `csv::WriterBuilder::from_writer` on an empty vector gives a writer
/// that has taken no record.
#[verifier::external_body]
fn open_writer() -> (w: CsvWriter)
    ensures
        written(w) == Seq::<Seq<Seq<char>>>::empty(),
{
    CsvWriter { inner: ::csv::WriterBuilder::new().has_headers(false).from_writer(Vec::new()) }
}

/// `csv::Writer::write_record`, on a writer that has refused nothing,
/// takes the first record whatever its length and every later one that is
/// as long as the first; it refuses a record of another length. Writing
/// into memory meets no other failure. The writer is handed back only
/// where it took the record.
#[verifier::external_body]
fn write_record(w: CsvWriter, record: &Vec<String>) -> (r: Result<CsvWriter, ::csv::Error>)
    ensures
        match r {
            Ok(after) => written(after) == written(w).push(views(record@)) && (written(w).len()
                == 0 || written(w)[0].len() == record@.len()),
            Err(_) => written(w).len() > 0 && written(w)[0].len() != record@.len(),
        },
{
    let mut w = w;
    match w.inner.write_record(record) {
        Ok(()) => Ok(w),
        Err(e) => Err(e),
    }
}

/// `csv::Writer::into_inner`, on a writer that has refused nothing, hands
/// out the bytes made of the records taken. It fails only where the sink
/// fails, and the sink is a vector in memory, to which bytes are appended:
/// so it does not fail. The failure that the types allow for is handed on
/// as text.
#[verifier::external_body]
fn into_bytes(w: CsvWriter) -> (r: Result<Vec<u8>, String>)
    ensures
        r is Ok,
        r matches Ok(bytes) ==> bytes@ == csv_bytes(written(w)),
{
    match w.inner.into_inner() {
        Ok(bytes) => Ok(bytes),
        Err(e) => Err(e.to_string()),
    }
}

/// The `Display` text of an error of the `csv` crate.
#[verifier::external_body]
fn csv_error_text(e: &::csv::Error) -> String {
    e.to_string()
}

/// `String::from_utf8` turns bytes into the string they encode, and fails
/// exactly when they are no UTF-8. Its failure is handed on as text.
#[verifier::external_body]
fn text_of_bytes(bytes: Vec<u8>) -> (r: Result<String, String>)
    ensures
        match r {
            Ok(text) => valid_utf8(bytes@) && text@ == decode_utf8(bytes@),
            Err(_) => !valid_utf8(bytes@),
        },
{
    match String::from_utf8(bytes) {
        Ok(text) => Ok(text),
        Err(e) => Err(e.to_string()),
    }
}

/// `csv::ReaderBuilder::from_reader` on a slice gives a reader that has
/// the whole slice to read, the first record included.
#[verifier::external_body]
fn open_reader<'a>(bytes: &'a [u8]) -> (r: ::csv::Reader<&'a [u8]>)
    ensures
        pending(r) == csv_items(bytes@),
{
    ::csv::ReaderBuilder::new().has_headers(false).from_reader(bytes)
}

/// `csv::Reader::read_record` reads the next record, reports the end of
/// the input, or fails; either way the reader has gone past what it read.
#[verifier::external_body]
fn read_record(r: &mut ::csv::Reader<&[u8]>) -> (item: Result<Option<Vec<String>>, ::csv::Error>)
    ensures
        match item {
            Ok(Some(record)) => pending(*old(r)).len() > 0 && pending(*old(r))[0] == Some(
                views(record@),
            ) && pending(*final(r)) == pending(*old(r)).skip(1),
            Ok(None) => pending(*old(r)).len() == 0,
            Err(_) => pending(*old(r)).len() > 0 && pending(*old(r))[0] is None,
        },
{
    let mut record = ::csv::StringRecord::new();
    match r.read_record(&mut record) {
        Ok(true) => Ok(Some(record.iter().map(|cell| cell.to_string()).collect())),
        Ok(false) => Ok(None),
        Err(e) => Err(e),
    }
}

/// The header of the column that holds the comments.
pub open spec fn comment_header() -> Seq<char> {
    "差分コメント"@
}

/// The records of a table: its headers, then its rows; with comments, the
/// header of the comment column and the comment of each row follow at the
/// end.
pub open spec fn csv_records(
    t: Table,
    known: Map<Seq<char>, Seq<char>>,
    include_comments: bool,
) -> Seq<Seq<Seq<char>>> {
    Seq::new(
        t.rows.len() + 1,
        |i: int|
            if i == 0 {
                if include_comments {
                    t.headers.push(comment_header())
                } else {
                    t.headers
                }
            } else if include_comments {
                t.rows[i - 1].push(comment_of(t.key(i - 1), known))
            } else {
                t.rows[i - 1]
            },
    )
}

/// Whether every record is as long as the first.
pub open spec fn even(records: Seq<Seq<Seq<char>>>) -> bool {
    forall|i: int| 0 <= i < records.len() ==> (#[trigger] records[i]).len() == records[0].len()
}

/// The mark that stands at the start of an exported CSV text.
pub open spec fn byte_order_mark() -> Seq<char> {
    seq!['\u{FEFF}']
}

/// Whether `r` is what comes of writing `records` as CSV text. Records of
/// different lengths are refused. Records of one length give the text that
/// the `csv` crate makes of them, after a byte order mark; the result is
/// `Ok` unless what the crate made is no UTF-8.
pub open spec fn is_csv_of(records: Seq<Seq<Seq<char>>>, r: Result<String, AppError>) -> bool {
    match r {
        Ok(text) => even(records) && valid_utf8(csv_bytes(records)) && text@ == byte_order_mark()
            + decode_utf8(csv_bytes(records)),
        Err(e) => if even(records) {
            !valid_utf8(csv_bytes(records)) && has_prefix(e.message@, "UTF-8変換エラー: "@)
        } else {
            has_prefix(e.message@, "CSV書き込みエラー: "@)
        },
    }
}

/// Gathers the records of a table.
pub fn table_records(
    parse: &ParseResult,
    diff_map: &StringHashMap<String>,
    include_comments: bool,
) -> (r: Vec<Vec<String>>)
    ensures
        grid(r@) == csv_records(parse@, text_map(diff_map@), include_comments),
{
    let ghost t = parse@;
    let ghost known = text_map(diff_map@);
    let ghost want = csv_records(t, known, include_comments);
    let mut records: Vec<Vec<String>> = Vec::new();
    let mut header = copy_row(&parse.headers);
    if include_comments {
        let ghost before = views(header@);
        header.push("差分コメント".to_owned());
        proof {
            assert(views(header@) =~= before.push(comment_header()));
        }
    }
    records.push(header);
    let mut r: usize = 0;
    while r < parse.rows.len()
        invariant
            r <= parse.rows.len(),
            t == parse@,
            known == text_map(diff_map@),
            want == csv_records(t, known, include_comments),
            records.len() == r + 1,
            forall|k: int| 0 <= k <= r ==> views((#[trigger] records@[k])@) == want[k],
        decreases parse.rows.len() - r,
    {
        let mut record = copy_row(&parse.rows[r]);
        proof {
            assert(t.rows[r as int] == views(parse.rows@[r as int]@));
        }
        if include_comments {
            let key = parse.get_ref(r);
            let ghost before = views(record@);
            record.push(diff_comment(key.as_str(), diff_map));
            proof {
                assert(views(record@) =~= before.push(comment_of(t.key(r as int), known)));
            }
        }
        records.push(record);
        r += 1;
    }
    proof {
        assert(grid(records@) =~= want);
    }
    records
}

/// What an export makes of the decoded CSV text: the text after the byte
/// order mark, or the failure to decode.
pub fn csv_document(decoded: Result<String, String>) -> (r: Result<String, AppError>)
    ensures
        match decoded {
            Ok(text) => r is Ok && r->Ok_0@ == byte_order_mark() + text@,
            Err(reason) => r is Err && r->Err_0.message@ == "UTF-8変換エラー: "@ + reason@,
        },
{
    match decoded {
        Ok(text) => {
            let mut out = String::new();
            out.push('\u{FEFF}');
            out.append(text.as_str());
            proof {
                assert(out@ =~= byte_order_mark() + text@);
            }
            Ok(out)
        },
        Err(reason) => {
            let mut message = "UTF-8変換エラー: ".to_owned();
            message.append(reason.as_str());
            Err(AppError::new(message.as_str()))
        },
    }
}

/// An error whose message is `label` followed by `reason`.
fn labelled(label: &str, reason: &str) -> (e: AppError)
    ensures
        e.message@ == label@ + reason@,
        has_prefix(e.message@, label@),
{
    let mut message = label.to_owned();
    message.append(reason);
    proof {
        assert(message@.subrange(0, label@.len() as int) =~= label@);
    }
    AppError::new(message.as_str())
}

/// Writes records as CSV text.
///
/// Records of different lengths are refused. For records of one length the
/// text is what the `csv` crate makes of them, after a byte order mark,
/// and the result is `Ok` whenever that is UTF-8.
pub fn write_csv(records: &Vec<Vec<String>>) -> (r: Result<String, AppError>)
    ensures
        is_csv_of(grid(records@), r),
        even(grid(records@)) && valid_utf8(csv_bytes(grid(records@))) ==> r is Ok,
{
    let ghost g = grid(records@);
    let mut writer = open_writer();
    let mut i: usize = 0;
    while i < records.len()
        invariant
            i <= records.len(),
            g == grid(records@),
            written(writer) == g.take(i as int),
            forall|k: int| 0 <= k < i ==> (#[trigger] g[k]).len() == g[0].len(),
        decreases records.len() - i,
    {
        proof {
            assert(g[i as int] == views(records@[i as int]@));
            if i > 0 {
                assert(g.take(i as int)[0] == g[0]);
            }
        }
        match write_record(writer, &records[i]) {
            Ok(after) => {
                writer = after;
                proof {
                    assert(g.take(i + 1) =~= g.take(i as int).push(g[i as int]));
                }
            },
            Err(e) => {
                let reason = csv_error_text(&e);
                return Err(labelled("CSV書き込みエラー: ", reason.as_str()));
            },
        }
        i += 1;
    }
    proof {
        assert(g.take(records.len() as int) =~= g);
    }
    match into_bytes(writer) {
        Ok(bytes) => {
            let decoded = text_of_bytes(bytes);
            let ghost failed = decoded is Err;
            let document = csv_document(decoded);
            proof {
                if failed {
                    let m = document->Err_0.message@;
                    assert(m.subrange(0, "UTF-8変換エラー: "@.len() as int) =~= "UTF-8変換エラー: "@);
                }
            }
            document
        },
        // The types allow for a failure that a sink in memory does not have.
        Err(reason) => Err(labelled("CSVバッファ取得エラー: ", reason.as_str())),
    }
}

/// Writes a table as CSV text: the headers, then the rows; with comments,
/// one more column that holds the comment of each row.
///
/// A table whose rows are not all as long as its headers is refused. Any
/// other table is written, provided that what the `csv` crate makes of it
/// is UTF-8.
pub fn export_csv(
    parse: &ParseResult,
    diff_map: &StringHashMap<String>,
    include_comments: bool,
) -> (r: Result<String, AppError>)
    ensures
        is_csv_of(csv_records(parse@, text_map(diff_map@), include_comments), r),
        even(csv_records(parse@, text_map(diff_map@), include_comments)) && valid_utf8(
            csv_bytes(csv_records(parse@, text_map(diff_map@), include_comments)),
        ) ==> r is Ok,
{
    let records = table_records(parse, diff_map, include_comments);
    write_csv(&records)
}

/// Whether every read gave a record.
pub open spec fn all_read(items: Seq<Option<Seq<Seq<char>>>>) -> bool {
    forall|i: int| 0 <= i < items.len() ==> (#[trigger] items[i]) is Some
}

/// The records that the reads gave.
pub open spec fn records_of(items: Seq<Option<Seq<Seq<char>>>>) -> Seq<Seq<Seq<char>>> {
    Seq::new(items.len(), |i: int| items[i]->0)
}

/// Reads the records of a CSV text.
///
/// The result is `Err` when a read fails: on bytes that are no UTF-8, and
/// on a record that is not as long as the first.
pub fn read_csv(content: &[u8]) -> (r: Result<Vec<Vec<String>>, AppError>)
    ensures
        match r {
            Ok(rows) => all_read(csv_items(content@)) && grid(rows@) == records_of(
                csv_items(content@),
            ),
            Err(e) => !all_read(csv_items(content@)) && has_prefix(
                e.message@,
                "CSVの解析に失敗しました: "@,
            ),
        },
{
    let ghost items = csv_items(content@);
    let mut reader = open_reader(content);
    let mut rows: Vec<Vec<String>> = Vec::new();
    let ghost mut n: int = 0;
    loop
        invariant
            0 <= n <= items.len(),
            items == csv_items(content@),
            pending(reader) == items.skip(n),
            rows.len() == n,
            forall|k: int| 0 <= k < n ==> #[trigger] items[k] == Some(views(rows@[k]@)),
        decreases items.len() - n,
    {
        match read_record(&mut reader) {
            Ok(Some(record)) => {
                proof {
                    assert(items.skip(n)[0] == items[n]);
                    assert(items.skip(n).skip(1) =~= items.skip(n + 1));
                    n = n + 1;
                }
                rows.push(record);
            },
            Ok(None) => {
                proof {
                    assert(items.skip(n).len() == 0);
                    assert(grid(rows@) =~= records_of(items));
                }
                return Ok(rows);
            },
            Err(e) => {
                proof {
                    assert(items.skip(n)[0] == items[n]);
                }
                let reason = csv_error_text(&e);
                return Err(labelled("CSVの解析に失敗しました: ", reason.as_str()));
            },
        }
    }
}

/// Reads a CSV text and classifies its records.
///
/// The result is `Err` when a read fails, and when no record holds
/// anything.
pub fn parse_csv_text(content: &[u8]) -> (r: Result<ParseResult, AppError>)
    ensures
        match r {
            Ok(t) => {
                let rows = records_of(csv_items(content@));
                all_read(csv_items(content@)) && has_content(rows) && t@ == classified(rows)
            },
            Err(e) => if all_read(csv_items(content@)) {
                !has_content(records_of(csv_items(content@))) && e.message@ == no_rows_message()
            } else {
                has_prefix(e.message@, "CSVの解析に失敗しました: "@)
            },
        },
{
    match read_csv(content) {
        Ok(rows) => build_bom_rows(rows),
        Err(e) => Err(e),
    }
}

} // verus!
