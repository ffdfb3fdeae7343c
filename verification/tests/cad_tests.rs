use bomsync::cad::{
    detect_cad_format, parse_bd_format, parse_cad_text, parse_ccf_definition_format,
    parse_msf_shape_format, parse_pads_eco_format, parse_pads_report_format, parse_pws_format,
    parse_reverse_structure, CadFormat,
};

fn text_row(cells: &[&str]) -> Vec<String> {
    cells.iter().map(|c| c.to_string()).collect()
}

#[test]
fn layouts_are_told_by_their_marks() {
    assert_eq!(detect_cad_format("x\n*PADS-ECO*\n").unwrap(), CadFormat::PADSECO);
    assert_eq!(detect_cad_format("  $MSF { SHAPE {").unwrap(), CadFormat::MSF);
    assert_eq!(detect_cad_format("\n$CCF{").unwrap(), CadFormat::CCF);
    assert_eq!(detect_cad_format("部品表１レポート\nC1 a b").unwrap(), CadFormat::PADSReport);
    assert_eq!(detect_cad_format("参照名 型番").unwrap(), CadFormat::PADSReport);
    assert_eq!(detect_cad_format("PN:C1,C2;").unwrap(), CadFormat::PWS);
    assert_eq!(detect_cad_format("C1 PN:x").unwrap(), CadFormat::BD);
    assert_eq!(detect_cad_format("").unwrap(), CadFormat::BD);
    assert_eq!(detect_cad_format("x $MSF").unwrap(), CadFormat::BD);
}

#[test]
fn eco_text_is_read() {
    let text = "*PADS-ECO*\nC0 before\n*PART*\nC10 0603B104K500CT\n\n  C12   0603B104K500CT  extra\n*REMARK* x y\nshort\nIC8 74VHC08FT(BJ)\r\n*END*\nC99 after\n";
    let t = parse_pads_eco_format(text).unwrap();
    assert_eq!(
        t.rows,
        vec![
            text_row(&["C10", "0603B104K500CT"]),
            text_row(&["C12", "0603B104K500CT"]),
            text_row(&["IC8", "74VHC08FT(BJ)"]),
        ]
    );
    assert_eq!(t.row_numbers, vec![1, 2, 3]);
    assert_eq!(t.headers, text_row(&["Ref", "Part No"]));
    assert_eq!(t.column_order, text_row(&["col-0", "col-1"]));
    assert_eq!(t.column_roles.len(), 2);
    assert_eq!(t.column_roles[0].role, "ref");
    assert_eq!(t.column_roles[0].column_ids, text_row(&["col-0"]));
    assert_eq!(t.column_roles[1].role, "part_no");
    assert_eq!(t.column_roles[1].column_ids, text_row(&["col-1"]));
    assert_eq!(t.columns[1].id, "col-1");
    assert_eq!(t.columns[1].name, "Part No");
    assert_eq!(t.get_ref(2), "IC8");
    assert_eq!(t.get_part_no(2), "74VHC08FT(BJ)");
    assert_eq!(t.diagnostics.len(), 1);
    assert_eq!(t.diagnostics[0].message, "列数が不足しています（最低2列必要）: short");
    assert_eq!(t.diagnostics[0].row, Some(8));
    assert_eq!(t.diagnostics[0].column, None);
    assert_eq!(t.diagnostics[0].severity, "warning");
}

#[test]
fn eco_text_without_pairs_is_an_error() {
    for text in ["", "*PADS-ECO*\nC1 PN1\n", "*PADS-ECO*\n*END*\n*PART*\nC1 PN1", "*PART*\nonly\n"] {
        let e = parse_pads_eco_format(text).unwrap_err();
        assert_eq!(e.message, "有効な*PART*セクションが見つかりませんでした。");
    }
}

#[test]
fn plain_pairs_are_read() {
    let t = parse_bd_format("C10 0603B104K500CT\n\nlonely\n C12\tPN2 x\n").unwrap();
    assert_eq!(t.rows, vec![text_row(&["C10", "0603B104K500CT"]), text_row(&["C12", "PN2"])]);
    assert_eq!(t.diagnostics.len(), 1);
    assert_eq!(t.diagnostics[0].row, Some(3));
    assert_eq!(t.diagnostics[0].message, "列数が不足しています（最低2列必要）: lonely");
    let e = parse_bd_format(" \n\n").unwrap_err();
    assert_eq!(e.message, "有効なBDデータが見つかりませんでした。");
}

#[test]
fn reports_are_read() {
    let text = "部品表１レポート\n参照名       型番           登録名\n-----------------\nC10   ABC   0603B104K500CT\n===\nC12   0603B104K500CT\nalone\n";
    let t = parse_pads_report_format(text).unwrap();
    assert_eq!(
        t.rows,
        vec![text_row(&["C10", "0603B104K500CT"]), text_row(&["C12", "0603B104K500CT"])]
    );
    assert_eq!(t.diagnostics.len(), 1);
    assert_eq!(t.diagnostics[0].message, "列数が不足しています: alone");
    assert_eq!(t.diagnostics[0].row, Some(7));
    let e = parse_pads_report_format("参照名\n---\n").unwrap_err();
    assert_eq!(e.message, "有効なPADSレポートデータが見つかりませんでした。");
}

#[test]
fn pws_text_is_read() {
    let text = "/* comment */\n0603B104K500CT : C10, C12 ;\n{ x:y }\n74VHC08FT(BJ):IC8,,IC9,IC10;;\nnothing here\n:R1;\nPN:;\n";
    let t = parse_pws_format(text).unwrap();
    assert_eq!(
        t.rows,
        vec![
            text_row(&["C10", "0603B104K500CT"]),
            text_row(&["C12", "0603B104K500CT"]),
            text_row(&["IC8", "74VHC08FT(BJ)"]),
            text_row(&["IC9", "74VHC08FT(BJ)"]),
            text_row(&["IC10", "74VHC08FT(BJ)"]),
            text_row(&["R1", ""]),
        ]
    );
    assert!(t.diagnostics.is_empty());
    assert_eq!(t.row_numbers, vec![1, 2, 3, 4, 5, 6]);
    let e = parse_pws_format("/* a:b; */\n").unwrap_err();
    assert_eq!(e.message, "有効なPWSデータが見つかりませんでした。");
}

#[test]
fn sections_are_read() {
    let text = "$MSF {\n     SHAPE {\n                0603B104K500CT:C10,\n                         C12;\n                74VHC08FT(BJ):IC8,\n                         IC9,\n                         IC10;\n  no colon;\n           }\n      }\n";
    let t = parse_msf_shape_format(text).unwrap();
    assert_eq!(
        t.rows,
        vec![
            text_row(&["C10", "0603B104K500CT"]),
            text_row(&["C12", "0603B104K500CT"]),
            text_row(&["IC8", "74VHC08FT(BJ)"]),
            text_row(&["IC9", "74VHC08FT(BJ)"]),
            text_row(&["IC10", "74VHC08FT(BJ)"]),
        ]
    );
    let nested = parse_reverse_structure("X { a:R1; { b:R2; } c:R3; } d:R4;", "X").unwrap();
    assert_eq!(
        nested.rows,
        vec![text_row(&["R1", "a"]), text_row(&["R2", "{ b"]), text_row(&["R3", "} c"])]
    );
    let ccf = parse_ccf_definition_format("$CCF{\n DEFINITION {\n PN:C1;\n }\n NET{\n }\n}\n").unwrap();
    assert_eq!(ccf.rows, vec![text_row(&["C1", "PN"])]);
}

#[test]
fn broken_sections_are_errors() {
    let e = parse_msf_shape_format("$MSF {\n OTHER {\n }\n}").unwrap_err();
    assert_eq!(e.message, "SHAPEセクションが見つかりませんでした。");
    let e = parse_ccf_definition_format("$CCF{\n DEFINITION{\n PN:C1;\n }\n}").unwrap_err();
    assert_eq!(e.message, "DEFINITIONセクションが見つかりませんでした。");
    let e = parse_msf_shape_format("$MSF {\n SHAPE {\n PN:C1; {").unwrap_err();
    assert_eq!(e.message, "SHAPEセクションの閉じ括弧が見つかりません。");
    let e = parse_msf_shape_format("SHAPE {}").unwrap_err();
    assert_eq!(e.message, "SHAPEセクションの閉じ括弧が見つかりません。");
    let e = parse_msf_shape_format("SHAPE { ; x; }").unwrap_err();
    assert_eq!(e.message, "有効なデータが見つかりませんでした。");
}

#[test]
fn a_text_is_read_in_its_layout() {
    assert_eq!(
        parse_cad_text("*PADS-ECO*\n*PART*\nC1 PN1\n*END*\n").unwrap().rows,
        vec![text_row(&["C1", "PN1"])]
    );
    assert_eq!(
        parse_cad_text("$MSF {\n SHAPE {\n PN1:C1;\n }\n}\n").unwrap().rows,
        vec![text_row(&["C1", "PN1"])]
    );
    assert_eq!(
        parse_cad_text("$CCF {\n DEFINITION {\n PN1:C1;\n }\n}\n").unwrap().rows,
        vec![text_row(&["C1", "PN1"])]
    );
    assert_eq!(
        parse_cad_text("参照名 型番\nC1 x PN1\n").unwrap().rows,
        vec![text_row(&["C1", "PN1"])]
    );
    assert_eq!(parse_cad_text("PN1:C1;\n").unwrap().rows, vec![text_row(&["C1", "PN1"])]);
    assert_eq!(parse_cad_text("C1 PN1\n").unwrap().rows, vec![text_row(&["C1", "PN1"])]);
    assert_eq!(parse_cad_text("").unwrap_err().message, "有効なBDデータが見つかりませんでした。");
}
