//! Recognition of column headers: which role a header text speaks of.

use crate::text::{
    begins, chars_of, has_part, has_prefix, holds, lowercase, same_text, strip_spaces, without_spaces,
};
use vstd::prelude::*;
use vstd::utf8::encode_utf8;

verus! {

/// The normal form of a header: no white space, lowercase.
pub open spec fn normalized(raw: Seq<char>) -> Seq<char> {
    lowercase(without_spaces(raw))
}

/// Brings a header to its normal form.
pub fn normalize_header(raw: &str) -> (r: String)
    ensures
        r@ == normalized(raw@),
{
    let bare = strip_spaces(raw);
    bare.as_str().to_lowercase()
}

/// Whether a normalized header names a reference designator: one of the
/// known names, a short name that starts with `ref` (at most five bytes in
/// UTF-8, as in `ref1`), or a text that holds one of the known parts.
pub open spec fn is_ref_header(n: Seq<char>) -> bool {
    ||| n == "ref"@
    ||| n == "reference"@
    ||| n == "refdesignator"@
    ||| n == "designator"@
    ||| n == "部品番号"@
    ||| n == "部番"@
    ||| (has_prefix(n, "ref"@) && encode_utf8(n).len() <= 5)
    ||| has_part(n, "refdesignator"@)
    ||| has_part(n, "designator"@)
    ||| has_part(n, "部品番号"@)
    ||| has_part(n, "部番"@)
    ||| has_part(n, "参照"@)
}

/// Whether a normalized header names a part number.
pub open spec fn is_part_no_header(n: Seq<char>) -> bool {
    ||| n == "partno"@
    ||| n == "partnumber"@
    ||| n == "partnr"@
    ||| n == "part"@
    ||| n == "name"@
    ||| n == "mpn"@
    ||| n == "型番"@
    ||| n == "品番"@
    ||| n == "部品型番"@
    ||| n == "部品名"@
    ||| ((has_part(n, "partno"@) || has_part(n, "partnumber"@) || has_part(n, "part"@))
        && !has_part(n, "manufacturer"@) && !has_part(n, "メーカー"@))
    ||| has_part(n, "型番"@)
    ||| has_part(n, "品番"@)
}

/// Whether a normalized header names a value.
pub open spec fn is_value_header(n: Seq<char>) -> bool {
    ||| n == "value"@
    ||| n == "val"@
    ||| n == "値"@
    ||| n == "定数"@
    ||| n == "仕様"@
    ||| n == "数値"@
    ||| (has_part(n, "value"@) && !has_part(n, "partno"@))
    ||| has_part(n, "仕様"@)
    ||| has_part(n, "定数"@)
}

/// Whether a normalized header names a comment.
pub open spec fn is_comment_header(n: Seq<char>) -> bool {
    ||| n == "comment"@
    ||| n == "comments"@
    ||| n == "note"@
    ||| n == "notes"@
    ||| n == "memo"@
    ||| n == "remark"@
    ||| n == "remarks"@
    ||| n == "description"@
    ||| n == "desc"@
    ||| n == "コメント"@
    ||| n == "備考"@
    ||| n == "注記"@
    ||| n == "説明"@
    ||| has_part(n, "comment"@)
    ||| has_part(n, "remark"@)
    ||| has_part(n, "note"@)
    ||| has_part(n, "コメント"@)
    ||| has_part(n, "備考"@)
    ||| has_part(n, "注記"@)
}

/// Whether a normalized header names a manufacturer.
pub open spec fn is_manufacturer_header(n: Seq<char>) -> bool {
    ||| n == "manufacturer"@
    ||| n == "mfr"@
    ||| n == "mfg"@
    ||| n == "maker"@
    ||| n == "vendor"@
    ||| n == "supplier"@
    ||| n == "メーカー"@
    ||| n == "製造元"@
    ||| n == "供給元"@
    ||| has_part(n, "manufacturer"@)
    ||| has_part(n, "maker"@)
    ||| has_part(n, "vendor"@)
    ||| has_part(n, "メーカー"@)
    ||| has_part(n, "製造"@)
    ||| has_part(n, "供給"@)
}

/// Decides whether a normalized header names a reference designator.
pub fn matches_ref_header(normalized: &str) -> (r: bool)
    ensures
        r == is_ref_header(normalized@),
{
    let n = normalized;
    if same_text(n, "ref") || same_text(n, "reference") || same_text(n, "refdesignator")
        || same_text(n, "designator") || same_text(n, "部品番号") || same_text(n, "部番") {
        return true;
    }
    let v = chars_of(n);
    if begins(&v, "ref") && n.as_bytes().len() <= 5 {
        return true;
    }
    holds(&v, "refdesignator") || holds(&v, "designator") || holds(&v, "部品番号") || holds(
        &v,
        "部番",
    ) || holds(&v, "参照")
}

/// Decides whether a normalized header names a part number.
pub fn matches_part_no_header(normalized: &str) -> (r: bool)
    ensures
        r == is_part_no_header(normalized@),
{
    let n = normalized;
    if same_text(n, "partno") || same_text(n, "partnumber") || same_text(n, "partnr")
        || same_text(n, "part") || same_text(n, "name") || same_text(n, "mpn") || same_text(
        n,
        "型番",
    ) || same_text(n, "品番") || same_text(n, "部品型番") || same_text(n, "部品名") {
        return true;
    }
    let v = chars_of(n);
    if (holds(&v, "partno") || holds(&v, "partnumber") || holds(&v, "part")) && !holds(
        &v,
        "manufacturer",
    ) && !holds(&v, "メーカー") {
        return true;
    }
    holds(&v, "型番") || holds(&v, "品番")
}

/// Decides whether a normalized header names a value.
pub fn matches_value_header(normalized: &str) -> (r: bool)
    ensures
        r == is_value_header(normalized@),
{
    let n = normalized;
    if same_text(n, "value") || same_text(n, "val") || same_text(n, "値") || same_text(
        n,
        "定数",
    ) || same_text(n, "仕様") || same_text(n, "数値") {
        return true;
    }
    let v = chars_of(n);
    if holds(&v, "value") && !holds(&v, "partno") {
        return true;
    }
    holds(&v, "仕様") || holds(&v, "定数")
}

/// Decides whether a normalized header names a comment.
pub fn matches_comment_header(normalized: &str) -> (r: bool)
    ensures
        r == is_comment_header(normalized@),
{
    let n = normalized;
    if same_text(n, "comment") || same_text(n, "comments") || same_text(n, "note") || same_text(
        n,
        "notes",
    ) || same_text(n, "memo") || same_text(n, "remark") || same_text(n, "remarks")
        || same_text(n, "description") || same_text(n, "desc") || same_text(n, "コメント")
        || same_text(n, "備考") || same_text(n, "注記") || same_text(n, "説明") {
        return true;
    }
    let v = chars_of(n);
    holds(&v, "comment") || holds(&v, "remark") || holds(&v, "note") || holds(&v, "コメント")
        || holds(&v, "備考") || holds(&v, "注記")
}

/// Decides whether a normalized header names a manufacturer.
pub fn matches_manufacturer_header(normalized: &str) -> (r: bool)
    ensures
        r == is_manufacturer_header(normalized@),
{
    let n = normalized;
    if same_text(n, "manufacturer") || same_text(n, "mfr") || same_text(n, "mfg") || same_text(
        n,
        "maker",
    ) || same_text(n, "vendor") || same_text(n, "supplier") || same_text(n, "メーカー")
        || same_text(n, "製造元") || same_text(n, "供給元") {
        return true;
    }
    let v = chars_of(n);
    holds(&v, "manufacturer") || holds(&v, "maker") || holds(&v, "vendor") || holds(
        &v,
        "メーカー",
    ) || holds(&v, "製造") || holds(&v, "供給")
}

} // verus!
