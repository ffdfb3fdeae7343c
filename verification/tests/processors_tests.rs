use bomsync::cleaner::{cleanse_text_data, fill_blank_cells};
use bomsync::formatter::{apply_format_rules, FormatOptions};
use bomsync::models::{ColumnMeta, ParseError, ParseResult, RoleColumns};
use bomsync::reference::{
    expand_reference, parse_reference_range, split_prefix_digits, split_reference_rows,
};

fn text_row(cells: &[&str]) -> Vec<String> {
    cells.iter().map(|c| c.to_string()).collect()
}

fn table(rows: &[&[&str]]) -> ParseResult {
    ParseResult {
        rows: rows.iter().map(|r| text_row(r)).collect(),
        column_roles: vec![
            RoleColumns { role: "ref".to_string(), column_ids: vec!["col-0".to_string()] },
            RoleColumns { role: "part_no".to_string(), column_ids: vec!["col-1".to_string()] },
        ],
        column_order: vec!["col-0".to_string(), "col-1".to_string()],
        headers: vec!["Ref".to_string(), "Part".to_string()],
        columns: vec![
            ColumnMeta { id: "col-0".to_string(), name: "Ref".to_string() },
            ColumnMeta { id: "col-1".to_string(), name: "Part".to_string() },
        ],
        row_numbers: (11..11 + rows.len()).collect(),
        diagnostics: vec![ParseError {
            message: "old".to_string(),
            row: None,
            column: None,
            severity: "info".to_string(),
        }],
    }
}

#[test]
fn blank_cells_take_what_stands_above() {
    let t = table(&[&["C1", "PN1", "x"], &["C2", " "], &["", "", "", "y"], &["C4", "PN4"]]);
    let filled = fill_blank_cells(&t).unwrap();
    assert_eq!(
        filled.rows,
        vec![
            text_row(&["C1", "PN1", "x"]),
            text_row(&["C2", "PN1"]),
            text_row(&["C2", "PN1", "", "y"]),
            text_row(&["C4", "PN4"]),
        ]
    );
    assert_eq!(filled.row_numbers, vec![11, 12, 13, 14]);
    assert!(filled.diagnostics.is_empty());
    assert_eq!(filled.headers, t.headers);
}

#[test]
fn cells_are_cleansed() {
    let t = table(&[&["Ｃ１", "74VHC08FT(BJ)"], &["（x）"]]);
    let clean = cleanse_text_data(&t);
    assert_eq!(clean.rows, vec![text_row(&["C1", "74VHC08FTBJ"]), text_row(&["x"])]);
    assert_eq!(clean.row_numbers, vec![11, 12]);
    assert!(clean.diagnostics.is_empty());
}

#[test]
fn format_rules_change_nothing() {
    let t = table(&[&["C1", "PN1"]]);
    let options = FormatOptions { use_strikethrough: true, use_cell_color: true };
    let same = apply_format_rules(&t, &options);
    assert_eq!(same.rows, t.rows);
    assert_eq!(same.headers, t.headers);
    assert_eq!(same.row_numbers, t.row_numbers);
    assert_eq!(same.diagnostics.len(), 1);
    assert_eq!(same.diagnostics[0].message, "old");
    assert_eq!(same.column_roles.len(), 2);
}

#[test]
fn designators_part_into_letters_and_rest() {
    assert_eq!(split_prefix_digits("IC10"), ("IC".to_string(), "10".to_string()));
    assert_eq!(split_prefix_digits("10"), ("".to_string(), "10".to_string()));
    assert_eq!(split_prefix_digits("C"), ("C".to_string(), "".to_string()));
    assert_eq!(split_prefix_digits("C1a"), ("C".to_string(), "1a".to_string()));
    assert_eq!(split_prefix_digits(""), ("".to_string(), "".to_string()));
}

#[test]
fn ranges() {
    assert_eq!(parse_reference_range("C1-C5"), Some(("C".to_string(), 1, 5)));
    assert_eq!(parse_reference_range("C1-5"), Some(("C".to_string(), 1, 5)));
    assert_eq!(parse_reference_range("1-C5"), Some(("C".to_string(), 1, 5)));
    assert_eq!(parse_reference_range("C5-C1"), Some(("C".to_string(), 5, 1)));
    assert_eq!(parse_reference_range("C007-C+9"), Some(("C".to_string(), 7, 9)));
    assert_eq!(
        parse_reference_range("R0-R4294967295"),
        Some(("R".to_string(), 0, 4294967295))
    );
    assert_eq!(parse_reference_range("R0-R4294967296"), None);
    assert_eq!(parse_reference_range("C1"), None);
    assert_eq!(parse_reference_range("C1-C2-C3"), None);
    assert_eq!(parse_reference_range("1-5"), None);
    assert_eq!(parse_reference_range("C1-R5"), None);
    assert_eq!(parse_reference_range("C-C5"), None);
    assert_eq!(parse_reference_range("C1-"), None);
    assert_eq!(parse_reference_range("-C1"), None);
    assert_eq!(parse_reference_range("C1x-C5"), None);
    assert_eq!(parse_reference_range(""), None);
}

#[test]
fn ranges_are_expanded() {
    let t = table(&[&["C1 - C3", "PN1"], &["R7", "PN2"], &["", "PN3"], &["U2-U2", "PN4"]]);
    let expanded = expand_reference(&t).unwrap();
    assert_eq!(
        expanded.rows,
        vec![
            text_row(&["C1", "PN1"]),
            text_row(&["C2", "PN1"]),
            text_row(&["C3", "PN1"]),
            text_row(&["R7", "PN2"]),
            text_row(&["", "PN3"]),
            text_row(&["U2", "PN4"]),
        ]
    );
    assert_eq!(expanded.row_numbers, vec![1, 2, 3, 4, 5, 6]);
    assert!(expanded.diagnostics.is_empty());
}

#[test]
fn an_inverted_range_is_an_error() {
    let t = table(&[&["R1", "PN"], &["C5 - C1", "PN1"], &["C9-C2", "PN1"]]);
    let e = expand_reference(&t).unwrap_err();
    assert_eq!(e.message, "Refの範囲指定が不正です: C5 - C1");
}

#[test]
fn lists_are_split() {
    let t = table(&[&["C1, C2,,C3", "PN1"], &["R7", "PN2"], &["", "PN3"], &[" U1 ,", "PN4"]]);
    let split = split_reference_rows(&t).unwrap();
    assert_eq!(
        split.rows,
        vec![
            text_row(&["C1", "PN1"]),
            text_row(&["C2", "PN1"]),
            text_row(&["C3", "PN1"]),
            text_row(&["R7", "PN2"]),
            text_row(&["", "PN3"]),
            text_row(&[" U1 ,", "PN4"]),
        ]
    );
    assert_eq!(split.row_numbers, vec![1, 2, 3, 4, 5, 6]);
}

#[test]
fn every_reference_column_gets_the_designator() {
    let mut t = table(&[&["C1,C2", "PN1", "C3"]]);
    t.column_roles[0].column_ids =
        vec!["col-0".to_string(), "col-2".to_string(), "col-7".to_string()];
    let split = split_reference_rows(&t).unwrap();
    assert_eq!(
        split.rows,
        vec![
            text_row(&["C1", "PN1", "C1"]),
            text_row(&["C2", "PN1", "C2"]),
            text_row(&["C3", "PN1", "C3"]),
        ]
    );
}
