use bomsync::header::{
    matches_comment_header, matches_manufacturer_header, matches_part_no_header,
    matches_ref_header, matches_value_header, normalize_header,
};

#[test]
fn test_normalize_header() {
    assert_eq!(normalize_header("Part No"), "partno");
    assert_eq!(normalize_header("  REF  "), "ref");
}

#[test]
fn test_matches_ref_header() {
    assert!(matches_ref_header("ref"));
    assert!(matches_ref_header("reference"));
    assert!(!matches_ref_header("value"));
}

#[test]
fn normalizing_removes_inner_and_wide_white_space() {
    assert_eq!(normalize_header("Ref\tDes ignator\u{3000}"), "refdesignator");
    assert_eq!(normalize_header(""), "");
    assert_eq!(normalize_header("ÄB c"), "äbc");
}

#[test]
fn reference_headers() {
    assert!(matches_ref_header("ref1"));
    assert!(matches_ref_header("ref12"));
    assert!(!matches_ref_header("ref123"));
    assert!(matches_ref_header("refdesignator"));
    assert!(matches_ref_header("thedesignatorcolumn"));
    assert!(matches_ref_header("部品番号"));
    assert!(matches_ref_header("部番a"));
    assert!(matches_ref_header("参照名"));
    assert!(!matches_ref_header("ref部"));
    assert!(!matches_ref_header(""));
    assert!(!matches_ref_header("part"));
}

#[test]
fn part_number_headers() {
    assert!(matches_part_no_header("partno"));
    assert!(matches_part_no_header("name"));
    assert!(matches_part_no_header("mpn"));
    assert!(matches_part_no_header("mypartnumber"));
    assert!(matches_part_no_header("型番"));
    assert!(matches_part_no_header("メーカー型番"));
    assert!(!matches_part_no_header("manufacturerpart"));
    assert!(!matches_part_no_header("メーカーpart"));
    assert!(!matches_part_no_header("filename"));
    assert!(!matches_part_no_header("value"));
}

#[test]
fn value_headers() {
    assert!(matches_value_header("value"));
    assert!(matches_value_header("val"));
    assert!(matches_value_header("値"));
    assert!(matches_value_header("nominalvalue"));
    assert!(!matches_value_header("partnovalue"));
    assert!(matches_value_header("仕様書"));
    assert!(!matches_value_header("ref"));
}

#[test]
fn comment_headers() {
    assert!(matches_comment_header("comment"));
    assert!(matches_comment_header("desc"));
    assert!(matches_comment_header("footnotes"));
    assert!(matches_comment_header("備考欄"));
    assert!(matches_comment_header("説明"));
    assert!(!matches_comment_header("説明書"));
    assert!(!matches_comment_header("value"));
}

#[test]
fn manufacturer_headers() {
    assert!(matches_manufacturer_header("manufacturer"));
    assert!(matches_manufacturer_header("mfr"));
    assert!(matches_manufacturer_header("vendorname"));
    assert!(matches_manufacturer_header("メーカー"));
    assert!(matches_manufacturer_header("製造者"));
    assert!(!matches_manufacturer_header("mfrs"));
    assert!(!matches_manufacturer_header("part"));
}
