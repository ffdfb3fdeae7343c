use bomsync::builder::{
    build_bom_rows, is_blank_row, is_data_row, is_potential_header, looks_like_manufacturer,
    looks_like_part_number, looks_like_reference,
};
use bomsync::models::ParseResult;

fn text_rows(rows: &[&[&str]]) -> Vec<Vec<String>> {
    rows.iter().map(|r| r.iter().map(|c| c.to_string()).collect()).collect()
}

fn ids(t: &ParseResult, role: &str) -> Vec<String> {
    t.column_ids(role)
}

#[test]
fn a_header_row_names_the_roles() {
    let t = build_bom_rows(text_rows(&[&["Ref", "Part", "Val"], &["C1", "", "5V"]])).unwrap();
    assert_eq!(ids(&t, "ref"), vec!["col-0".to_string()]);
    assert_eq!(ids(&t, "part_no"), vec!["col-1".to_string()]);
    assert_eq!(ids(&t, "value"), vec!["col-2".to_string()]);
    assert_eq!(ids(&t, "manufacturer"), Vec::<String>::new());
    assert_eq!(t.rows, text_rows(&[&["C1", "", "5V"]]));
    assert_eq!(t.row_numbers, vec![2]);
    assert_eq!(t.headers, vec!["Ref".to_string(), "Part".to_string(), "Val".to_string()]);
    assert_eq!(t.columns.len(), 3);
    assert_eq!(t.columns[2].id, "col-2");
    assert_eq!(t.columns[2].name, "Val");
    assert_eq!(
        t.column_order,
        vec!["col-0".to_string(), "col-1".to_string(), "col-2".to_string()]
    );
    let part_warnings: Vec<_> = t
        .diagnostics
        .iter()
        .filter(|d| d.severity == "warning" && d.row == Some(2) && d.column == Some(1))
        .collect();
    assert_eq!(part_warnings.len(), 1);
    assert_eq!(
        part_warnings[0].message,
        "2行目: 部品型番が空です。編集モードで指定してください。"
    );
    assert_eq!(t.diagnostics.len(), 2);
    assert_eq!(
        t.diagnostics[0].message,
        "メーカー列を自動判定できませんでした。編集モードで指定してください。"
    );
    assert_eq!(t.diagnostics[0].row, None);
    assert_eq!(t.diagnostics[0].severity, "warning");
}

#[test]
fn empty_input_is_an_error() {
    let e = build_bom_rows(vec![]).unwrap_err();
    assert_eq!(e.message, "BOMデータ内に有効な行が見つかりませんでした。");
    let e = build_bom_rows(text_rows(&[&["", " "], &[], &["\t"]])).unwrap_err();
    assert_eq!(e.message, "BOMデータ内に有効な行が見つかりませんでした。");
}

#[test]
fn blank_rows_around_the_content_are_dropped_and_inner_ones_kept() {
    let t = build_bom_rows(text_rows(&[
        &[""],
        &["Ref", "Part"],
        &["C1", "PN1"],
        &["", ""],
        &["C2", "PN2"],
        &[" "],
        &[],
    ]))
    .unwrap();
    assert_eq!(t.rows, text_rows(&[&["C1", "PN1"], &["", ""], &["C2", "PN2"]]));
    assert_eq!(t.row_numbers, vec![3, 4, 5]);
}

#[test]
fn without_a_header_the_content_decides() {
    let t = build_bom_rows(text_rows(&[
        &["C1", "0603B104K500CT", "Murata Manufacturing"],
        &["R12", "RC0402FR-0710KL", "Yageo"],
        &["U3, U4", "74VHC08FT", "Toshiba"],
    ]))
    .unwrap();
    assert_eq!(ids(&t, "ref"), vec!["col-0".to_string()]);
    assert_eq!(ids(&t, "part_no"), Vec::<String>::new());
    assert_eq!(ids(&t, "manufacturer"), vec!["col-2".to_string()]);
    assert_eq!(ids(&t, "value"), Vec::<String>::new());
    assert_eq!(t.rows.len(), 3);
    assert_eq!(t.row_numbers, vec![1, 2, 3]);
    assert_eq!(
        t.headers,
        vec!["Column 1".to_string(), "Column 2".to_string(), "Column 3".to_string()]
    );
    assert_eq!(
        t.column_order,
        vec!["col-0".to_string(), "col-2".to_string(), "col-1".to_string()]
    );
    assert_eq!(t.diagnostics.len(), 2);
    assert_eq!(
        t.diagnostics[0].message,
        "部品型番列の候補が複数見つかりました（Column 1, Column 2）。編集モードで指定してください。"
    );
    assert_eq!(
        t.diagnostics[1].message,
        "Value列を自動判定できませんでした。編集モードで指定してください。"
    );
}

#[test]
fn shapes_shared_by_several_columns_decide_nothing() {
    let t = build_bom_rows(text_rows(&[&["C1", "GRM155R71C104KA88"], &["C2", "RC0402"]])).unwrap();
    assert_eq!(ids(&t, "ref"), Vec::<String>::new());
    assert_eq!(
        t.diagnostics[0].message,
        "Reference列の候補が複数見つかりました（Column 1, Column 2）。編集モードで指定してください。"
    );
    assert_eq!(t.rows.len(), 2);
}

#[test]
fn a_column_needs_more_than_half_of_its_cells_to_fit() {
    let t = build_bom_rows(text_rows(&[
        &["C1", "abc"],
        &["C2", "X1"],
        &["C3", "def"],
        &["C4", "X2"],
    ]))
    .unwrap();
    assert_eq!(ids(&t, "ref"), vec!["col-0".to_string()]);
    assert_eq!(ids(&t, "part_no"), vec!["col-0".to_string()]);
}

#[test]
fn several_reference_columns_are_all_taken() {
    let t = build_bom_rows(text_rows(&[
        &["Ref1", "Ref2", "Part No"],
        &["C1", "C2", "PN1"],
    ]))
    .unwrap();
    assert_eq!(ids(&t, "ref"), vec!["col-0".to_string(), "col-1".to_string()]);
    assert_eq!(t.get_ref(0), "C1, C2");
}

#[test]
fn several_candidates_for_a_single_role_leave_it_open() {
    let t = build_bom_rows(text_rows(&[
        &["Ref", "Part No", "Part Name"],
        &["C1", "PN1", "cap"],
    ]))
    .unwrap();
    assert_eq!(ids(&t, "part_no"), Vec::<String>::new());
    assert!(!t.column_roles.iter().any(|r| r.role == "part_no"));
    let w: Vec<_> = t.diagnostics.iter().filter(|d| d.row.is_none()).collect();
    assert_eq!(
        w[0].message,
        "部品型番列の候補が複数見つかりました（Column 2, Column 3）。編集モードで指定してください。"
    );
}

#[test]
fn columns_with_a_role_come_first() {
    let t = build_bom_rows(text_rows(&[
        &["Qty", "Value", "Maker", "Part", "Ref", "Note"],
        &["1", "10k", "Yageo", "RC0402", "R1", ""],
    ]))
    .unwrap();
    assert_eq!(
        t.column_order,
        vec![
            "col-4".to_string(),
            "col-3".to_string(),
            "col-2".to_string(),
            "col-1".to_string(),
            "col-0".to_string(),
            "col-5".to_string()
        ]
    );
    assert!(t.diagnostics.is_empty());
}

#[test]
fn ragged_rows_are_reported_and_kept() {
    let t = build_bom_rows(text_rows(&[
        &["Ref", "Part", "", "Maker"],
        &["C1"],
        &["C2", "PN2", "x", "Acme", "extra"],
    ]))
    .unwrap();
    assert_eq!(t.rows, text_rows(&[&["C1"], &["C2", "PN2", "x", "Acme", "extra"]]));
    assert_eq!(t.headers.len(), 5);
    assert_eq!(t.headers[2], "Column 3");
    assert_eq!(t.headers[4], "Column 5");
    let errors: Vec<_> = t.diagnostics.iter().filter(|d| d.severity == "error").collect();
    assert_eq!(errors.len(), 2);
    assert_eq!(errors[0].message, "2行目: 部品型番列のデータが不足しています。");
    assert_eq!(errors[0].row, Some(2));
    assert_eq!(errors[0].column, Some(1));
    assert_eq!(errors[1].message, "2行目: メーカー列のデータが不足しています。");
    assert_eq!(errors[1].column, Some(3));
}

#[test]
fn empty_and_repeated_keys_are_warned_of() {
    let t = build_bom_rows(text_rows(&[
        &["Ref", "Part"],
        &["C1", "PN1"],
        &["", "PN2"],
        &["C1", "PN3"],
        &["C1", "PN4"],
    ]))
    .unwrap();
    let messages: Vec<_> = t.diagnostics.iter().map(|d| d.message.clone()).collect();
    assert!(messages.contains(&"3行目: Referenceが空です。".to_string()));
    assert!(messages.contains(&"4行目: Reference 'C1' が重複しています。".to_string()));
    assert!(messages.contains(&"5行目: Reference 'C1' が重複しています。".to_string()));
    let keyed: Vec<_> = t.diagnostics.iter().filter(|d| d.row.is_some()).collect();
    assert_eq!(keyed.len(), 3);
    assert_eq!(keyed[0].column, Some(0));
}

#[test]
fn invalid_characters_are_warned_of() {
    let t = build_bom_rows(text_rows(&[&["Ref", "Part"], &["C1", "PN\u{1}1\u{2}"]])).unwrap();
    let w: Vec<_> = t.diagnostics.iter().filter(|d| d.row == Some(2)).collect();
    assert_eq!(w.len(), 1);
    assert_eq!(w[0].message, "2行目(列2): 無効な文字 '\u{1}' を検出しました。");
    assert_eq!(w[0].column, Some(1));
    assert_eq!(w[0].severity, "warning");
}

#[test]
fn a_header_alone_gives_a_table_without_rows() {
    let t = build_bom_rows(text_rows(&[&["Ref", "Part"]])).unwrap();
    assert!(t.rows.is_empty());
    assert!(t.row_numbers.is_empty());
    assert_eq!(ids(&t, "ref"), vec!["col-0".to_string()]);
}

#[test]
fn classifying_twice_gives_the_same() {
    let input = text_rows(&[
        &["Ref", "Part", "Part2", "x"],
        &["C1", "PN1"],
        &["C1", "", "\u{7}"],
    ]);
    let a = build_bom_rows(input.clone()).unwrap();
    let b = build_bom_rows(input).unwrap();
    assert_eq!(a.column_order, b.column_order);
    assert_eq!(a.column_roles.len(), b.column_roles.len());
    for (x, y) in a.column_roles.iter().zip(b.column_roles.iter()) {
        assert_eq!(x.role, y.role);
        assert_eq!(x.column_ids, y.column_ids);
    }
    assert_eq!(a.diagnostics.len(), b.diagnostics.len());
    for (x, y) in a.diagnostics.iter().zip(b.diagnostics.iter()) {
        assert_eq!(x.message, y.message);
        assert_eq!(x.row, y.row);
        assert_eq!(x.column, y.column);
        assert_eq!(x.severity, y.severity);
    }
}

#[test]
fn reference_shapes() {
    assert!(looks_like_reference("C1"));
    assert!(looks_like_reference("IC10"));
    assert!(looks_like_reference("R1, R2;R3"));
    assert!(looks_like_reference("C1,,"));
    assert!(looks_like_reference("J1-A"));
    assert!(looks_like_reference("TP_1/2"));
    assert!(!looks_like_reference(""));
    assert!(!looks_like_reference(","));
    assert!(!looks_like_reference("C"));
    assert!(!looks_like_reference("1C"));
    assert!(!looks_like_reference("5V"));
    assert!(!looks_like_reference("C1, x"));
    assert!(!looks_like_reference("C1.2"));
    assert!(!looks_like_reference("Ref"));
    assert!(!looks_like_reference("9"));
}

#[test]
fn part_number_shapes() {
    assert!(looks_like_part_number("0603B104K500CT"));
    assert!(looks_like_part_number("RC0402FR-07.10/KL_x"));
    assert!(!looks_like_part_number(""));
    assert!(!looks_like_part_number("12345"));
    assert!(!looks_like_part_number("abc"));
    assert!(!looks_like_part_number("AB 12"));
    assert!(!looks_like_part_number("74VHC08FT(BJ)"));
}

#[test]
fn manufacturer_shapes() {
    assert!(looks_like_manufacturer("Murata"));
    assert!(looks_like_manufacturer("Texas Instruments"));
    assert!(looks_like_manufacturer("3M Company 2000"));
    assert!(looks_like_manufacturer("AB(1)"));
    assert!(!looks_like_manufacturer(""));
    assert!(!looks_like_manufacturer("AB12"));
    assert!(!looks_like_manufacturer("1234"));
    assert!(!looks_like_manufacturer("A(123)"));
}

#[test]
fn row_kinds() {
    let blank: Vec<String> = vec!["".to_string(), " \t".to_string()];
    let header: Vec<String> = vec!["Ref".to_string(), "Part".to_string()];
    let data: Vec<String> = vec!["".to_string(), " C1 ".to_string()];
    assert!(is_blank_row(&blank));
    assert!(is_blank_row(&vec![]));
    assert!(!is_blank_row(&header));
    assert!(!is_data_row(&blank));
    assert!(!is_data_row(&header));
    assert!(is_data_row(&data));
    assert!(is_potential_header(&header));
    assert!(!is_potential_header(&blank));
    assert!(!is_potential_header(&data));
    let numbered: Vec<String> = vec!["Ref1".to_string(), "Ref2".to_string()];
    assert!(is_data_row(&numbered));
    assert!(is_potential_header(&numbered));
}

#[test]
fn only_the_first_fifty_rows_are_sampled() {
    let mut rows: Vec<Vec<String>> = Vec::new();
    for i in 0..50 {
        rows.push(vec![format!("C{}", i + 1), "Acme Corp".to_string()]);
    }
    for i in 50..100 {
        rows.push(vec![format!("C{}", i + 1), "PN123".to_string()]);
    }
    let t = build_bom_rows(rows).unwrap();
    assert_eq!(ids(&t, "manufacturer"), vec!["col-1".to_string()]);
    assert_eq!(t.rows.len(), 100);
    assert_eq!(t.row_numbers[99], 100);
}

#[test]
fn a_row_too_short_for_the_reference_is_an_error_and_has_no_key() {
    let t = build_bom_rows(text_rows(&[&["Part", "Ref"], &["PN1", "C1"], &["PN2"]])).unwrap();
    let found: Vec<_> = t.diagnostics.iter().filter(|d| d.row == Some(3)).collect();
    assert_eq!(found.len(), 2);
    assert_eq!(found[0].severity, "error");
    assert_eq!(found[0].message, "3行目: Reference列のデータが不足しています。");
    assert_eq!(found[0].column, Some(1));
    assert_eq!(found[1].severity, "warning");
    assert_eq!(found[1].message, "3行目: Referenceが空です。");
    assert_eq!(found[1].column, Some(1));
    assert_eq!(t.column_order, vec!["col-1".to_string(), "col-0".to_string()]);
}
