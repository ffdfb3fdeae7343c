use bomsync::csv_format::{csv_document, export_csv, parse_csv_text, read_csv, write_csv};
use bomsync::exporters::{
    diff_comment, diff_statuses, export_bom_file, export_ccf, export_eco, export_msf,
    group_by_part_no,
};
use bomsync::models::{ColumnMeta, DiffRow, ParseResult, RoleColumns};

fn text_row(cells: &[&str]) -> Vec<String> {
    cells.iter().map(|c| c.to_string()).collect()
}

fn table(rows: &[&[&str]]) -> ParseResult {
    ParseResult {
        rows: rows.iter().map(|r| text_row(r)).collect(),
        column_roles: vec![
            RoleColumns { role: "ref".to_string(), column_ids: vec!["col-0".to_string()] },
            RoleColumns { role: "part_no".to_string(), column_ids: vec!["col-1".to_string()] },
        ],
        column_order: vec!["col-0".to_string(), "col-1".to_string()],
        headers: vec!["Ref".to_string(), "Part".to_string()],
        columns: vec![
            ColumnMeta { id: "col-0".to_string(), name: "Ref".to_string() },
            ColumnMeta { id: "col-1".to_string(), name: "Part".to_string() },
        ],
        row_numbers: (1..=rows.len()).collect(),
        diagnostics: vec![],
    }
}

fn change(key: &str, status: &str) -> DiffRow {
    DiffRow {
        status: status.to_string(),
        a_index: None,
        b_index: None,
        ref_value: key.to_string(),
        changed_columns: vec![],
    }
}

fn sample() -> ParseResult {
    table(&[&["C10", "0603B104K"], &["IC8", "74VHC08FT"], &["C12", "0603B104K"], &["X1", ""]])
}

fn changes() -> Vec<DiffRow> {
    vec![
        change("C10", "removed"),
        change("C12", "added"),
        change("IC8", "unchanged"),
        change("X1", "moved"),
        change("C10", "modified"),
    ]
}

#[test]
fn comments() {
    let m = diff_statuses(&changes());
    assert_eq!(diff_comment("C10", &m), "←変更");
    assert_eq!(diff_comment("C12", &m), "←追加");
    assert_eq!(diff_comment("IC8", &m), "");
    assert_eq!(diff_comment("X1", &m), "←moved");
    assert_eq!(diff_comment("Z9", &m), "");
    let japanese = diff_statuses(&[change("a", "削除"), change("b", "同一"), change("c", "変更")]);
    assert_eq!(diff_comment("a", &japanese), "←削除");
    assert_eq!(diff_comment("b", &japanese), "");
    assert_eq!(diff_comment("c", &japanese), "←変更");
}

#[test]
fn eco() {
    let m = diff_statuses(&changes());
    assert_eq!(
        export_eco(&sample(), &m, false).unwrap(),
        "*PADS-ECO*\n*PART*\nC10 0603B104K\nIC8 74VHC08FT\nC12 0603B104K\nX1 \n*END*"
    );
    assert_eq!(
        export_eco(&sample(), &m, true).unwrap(),
        "*PADS-ECO*\n*PART*\nC10 0603B104K ←変更\nIC8 74VHC08FT\nC12 0603B104K ←追加\nX1  ←moved\n*END*"
    );
    assert_eq!(export_eco(&table(&[]), &m, true).unwrap(), "*PADS-ECO*\n*PART*\n*END*");
}

#[test]
fn groups_ascend_by_part_number() {
    let m = diff_statuses(&changes());
    let groups = group_by_part_no(&sample(), &m, true);
    assert_eq!(groups.len(), 3);
    assert_eq!(groups[0].part_no, "(未指定)");
    assert_eq!(groups[0].references, vec!["X1 ←moved".to_string()]);
    assert_eq!(groups[1].part_no, "0603B104K");
    assert_eq!(groups[1].references, vec!["C10 ←変更".to_string(), "C12 ←追加".to_string()]);
    assert_eq!(groups[2].part_no, "74VHC08FT");
    assert_eq!(groups[2].references, vec!["IC8".to_string()]);
    let mut all: Vec<String> = vec!["b", "a", "B", "ab", "", "a!", "あ", "Z", "a~", "é"]
        .into_iter()
        .map(|s| s.to_string())
        .collect();
    let rows: Vec<Vec<String>> =
        all.iter().map(|p| vec!["R".to_string(), format!("x{}", p)]).collect();
    let t = ParseResult { rows, ..table(&[]) };
    let sorted: Vec<String> =
        group_by_part_no(&t, &m, false).into_iter().map(|g| g.part_no).collect();
    all.sort();
    let expected: Vec<String> = all.iter().map(|p| format!("x{}", p)).collect();
    assert_eq!(sorted, expected);
}

#[test]
fn ccf_and_msf() {
    let m = diff_statuses(&[]);
    assert_eq!(
        export_ccf(&sample(), &m, false).unwrap(),
        "$CCF{\n     DEFINITION{\n                (未指定):X1;\n                0603B104K:C10,\n                         C12;\n                74VHC08FT:IC8;\n               }\n     NET{\n        }\n    }\n"
    );
    assert_eq!(
        export_msf(&sample(), &m, false).unwrap(),
        "$MSF {\n     SHAPE {\n                (未指定):X1;\n                0603B104K:C10,\n                         C12;\n                74VHC08FT:IC8;\n           }\n      }\n"
    );
}

#[test]
fn csv_text() {
    let m = diff_statuses(&changes());
    let t = table(&[&["C10", "0603,B"], &["IC8", "say \"hi\""]]);
    assert_eq!(
        export_csv(&t, &m, false).unwrap(),
        "\u{FEFF}Ref,Part\nC10,\"0603,B\"\nIC8,\"say \"\"hi\"\"\"\n"
    );
    assert_eq!(
        export_csv(&t, &m, true).unwrap(),
        "\u{FEFF}Ref,Part,差分コメント\nC10,\"0603,B\",←変更\nIC8,\"say \"\"hi\"\"\",\n"
    );
}

#[test]
fn ragged_tables_are_refused_as_csv() {
    let m = diff_statuses(&[]);
    let t = table(&[&["C10", "PN"], &["IC8"]]);
    let e = export_csv(&t, &m, false).unwrap_err();
    assert!(e.message.starts_with("CSV書き込みエラー: "));
    let e = write_csv(&vec![text_row(&["a"]), text_row(&["a", "b"])]).unwrap_err();
    assert!(e.message.starts_with("CSV書き込みエラー: "));
    assert_eq!(write_csv(&vec![]).unwrap(), "\u{FEFF}");
}

#[test]
fn export_goes_by_format() {
    let t = sample();
    let d = changes();
    assert_eq!(
        export_bom_file(&t, "eco", Some(&d), true).unwrap(),
        "*PADS-ECO*\n*PART*\nC10 0603B104K ←変更\nIC8 74VHC08FT\nC12 0603B104K ←追加\nX1  ←moved\n*END*"
    );
    assert_eq!(
        export_bom_file(&t, "Eco", None, true).unwrap(),
        "*PADS-ECO*\n*PART*\nC10 0603B104K\nIC8 74VHC08FT\nC12 0603B104K\nX1 \n*END*"
    );
    assert!(export_bom_file(&t, "ccf", None, false).unwrap().starts_with("$CCF{"));
    assert!(export_bom_file(&t, "MSF", None, false).unwrap().starts_with("$MSF {"));
    assert!(export_bom_file(&t, "csv", None, false).unwrap().starts_with("\u{FEFF}Ref,Part\n"));
    let e = export_bom_file(&t, "pdf", None, false).unwrap_err();
    assert_eq!(e.message, "未対応のエクスポート形式です: PDF");
}

#[test]
fn csv_is_read_record_by_record() {
    let rows = read_csv("Ref,Part\nC1,\"a,b\"\n\"C\"\"2\",\n".as_bytes()).unwrap();
    assert_eq!(
        rows,
        vec![text_row(&["Ref", "Part"]), text_row(&["C1", "a,b"]), text_row(&["C\"2", ""])]
    );
    assert_eq!(read_csv(b"").unwrap(), Vec::<Vec<String>>::new());
    let e = read_csv(b"a,b\nc\n").unwrap_err();
    assert!(e.message.starts_with("CSVの解析に失敗しました: "));
    let e = read_csv(b"a,b\n\xff,c\n").unwrap_err();
    assert!(e.message.starts_with("CSVの解析に失敗しました: "));
}

#[test]
fn csv_text_is_classified() {
    let t = parse_csv_text("Ref,Part No\nC1,PN1\nC2,PN2\n".as_bytes()).unwrap();
    assert_eq!(t.rows, vec![text_row(&["C1", "PN1"]), text_row(&["C2", "PN2"])]);
    assert_eq!(t.get_ref(1), "C2");
    assert_eq!(t.get_part_no(0), "PN1");
    let e = parse_csv_text(b"").unwrap_err();
    assert_eq!(e.message, "BOMデータ内に有効な行が見つかりませんでした。");
    let e = parse_csv_text(b"a,b\nc\n").unwrap_err();
    assert!(e.message.starts_with("CSVの解析に失敗しました: "));
}

#[test]
fn what_is_written_reads_back() {
    let records = vec![text_row(&["a b", "c,d", ""]), text_row(&["\"", "x\ny", "é"])];
    let text = write_csv(&records).unwrap();
    let body = text.strip_prefix('\u{FEFF}').unwrap();
    assert_eq!(read_csv(body.as_bytes()).unwrap(), records);
}

#[test]
fn a_csv_document_starts_with_the_byte_order_mark() {
    assert_eq!(csv_document(Ok("a,b\n".to_string())).unwrap(), "\u{FEFF}a,b\n");
    assert_eq!(csv_document(Ok(String::new())).unwrap(), "\u{FEFF}");
    let e = csv_document(Err("bad bytes".to_string())).unwrap_err();
    assert_eq!(e.message, "UTF-8変換エラー: bad bytes");
}

#[test]
fn records_of_one_length_are_always_written() {
    let text = write_csv(&vec![text_row(&[]), text_row(&[])]).unwrap();
    assert_eq!(text, "\u{FEFF}\"\"\n\"\"\n");
    let text = write_csv(&vec![text_row(&["a", "b", "c"]), text_row(&["", "", ""])]).unwrap();
    assert_eq!(text, "\u{FEFF}a,b,c\n,,\n");
    let e = write_csv(&vec![text_row(&["a"]), text_row(&["x", "y"]), text_row(&["z"])])
        .unwrap_err();
    assert!(e.message.starts_with("CSV書き込みエラー: "));
}
