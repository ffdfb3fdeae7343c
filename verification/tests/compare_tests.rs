use bomsync::compare::compare_boms;
use bomsync::merge::update_and_append_boms;
use bomsync::models::{ColumnMeta, ParseResult, RoleColumns};

fn text_row(cells: &[&str]) -> Vec<String> {
    cells.iter().map(|c| c.to_string()).collect()
}

fn table(rows: &[&[&str]]) -> ParseResult {
    ParseResult {
        rows: rows.iter().map(|r| text_row(r)).collect(),
        column_roles: vec![
            RoleColumns { role: "ref".to_string(), column_ids: vec!["col-0".to_string()] },
            RoleColumns { role: "part_no".to_string(), column_ids: vec!["col-1".to_string()] },
        ],
        column_order: vec!["col-0".to_string(), "col-1".to_string()],
        headers: vec!["Ref".to_string(), "Part".to_string()],
        columns: vec![
            ColumnMeta { id: "col-0".to_string(), name: "Ref".to_string() },
            ColumnMeta { id: "col-1".to_string(), name: "Part".to_string() },
        ],
        row_numbers: (1..=rows.len()).collect(),
        diagnostics: vec![],
    }
}

#[test]
fn test_compare_identical_boms() {
    let parse_a = ParseResult {
        rows: vec![vec!["C1".to_string(), "0603B104K".to_string()]],
        column_roles: vec![
            RoleColumns { role: "ref".to_string(), column_ids: vec!["col-0".to_string()] },
            RoleColumns { role: "part_no".to_string(), column_ids: vec!["col-1".to_string()] },
        ],
        column_order: vec!["col-0".to_string(), "col-1".to_string()],
        headers: vec!["Ref".to_string(), "Part".to_string()],
        columns: vec![
            ColumnMeta { id: "col-0".to_string(), name: "Ref".to_string() },
            ColumnMeta { id: "col-1".to_string(), name: "Part".to_string() },
        ],
        row_numbers: vec![1],
        diagnostics: vec![],
    };

    let parse_b = parse_a.clone();

    let diffs = compare_boms(&parse_a, &parse_b);

    assert_eq!(diffs.len(), 1);
    assert_eq!(diffs[0].status, "unchanged");
}

#[test]
fn test_compare_added_row() {
    let parse_a = ParseResult {
        rows: vec![vec!["C1".to_string(), "0603B104K".to_string()]],
        column_roles: vec![
            RoleColumns { role: "ref".to_string(), column_ids: vec!["col-0".to_string()] },
            RoleColumns { role: "part_no".to_string(), column_ids: vec!["col-1".to_string()] },
        ],
        column_order: vec!["col-0".to_string(), "col-1".to_string()],
        headers: vec!["Ref".to_string(), "Part".to_string()],
        columns: vec![
            ColumnMeta { id: "col-0".to_string(), name: "Ref".to_string() },
            ColumnMeta { id: "col-1".to_string(), name: "Part".to_string() },
        ],
        row_numbers: vec![1],
        diagnostics: vec![],
    };

    let mut parse_b = parse_a.clone();
    parse_b.rows.push(vec!["C2".to_string(), "0603B104K".to_string()]);

    let diffs = compare_boms(&parse_a, &parse_b);

    assert_eq!(diffs.len(), 2);
    assert_eq!(diffs[0].status, "unchanged");
    assert_eq!(diffs[1].status, "added");
}

#[test]
fn modified_and_added_rows_are_reported() {
    let a = table(&[&["C1", "PN1"]]);
    let b = table(&[&["C1", "PN2"], &["C2", "PN3"]]);
    let diffs = compare_boms(&a, &b);
    assert_eq!(diffs.len(), 2);
    assert_eq!(diffs[0].status, "modified");
    assert_eq!(diffs[0].ref_value, "C1");
    assert_eq!(diffs[0].a_index, Some(0));
    assert_eq!(diffs[0].b_index, Some(0));
    assert_eq!(diffs[0].changed_columns, vec!["col-1".to_string()]);
    assert_eq!(diffs[1].status, "added");
    assert_eq!(diffs[1].ref_value, "C2");
    assert_eq!(diffs[1].a_index, None);
    assert_eq!(diffs[1].b_index, Some(1));
    assert!(diffs[1].changed_columns.is_empty());

    let merged = update_and_append_boms(&a, &b).unwrap();
    assert_eq!(merged.rows, vec![text_row(&["C1", "PN2"]), text_row(&["C2", "PN3"])]);
    assert_eq!(merged.row_numbers, vec![1, 2]);
}

#[test]
fn a_row_without_counterpart_is_removed() {
    let a = table(&[&["C1", "PN1"]]);
    let b = table(&[]);
    let diffs = compare_boms(&a, &b);
    assert_eq!(diffs.len(), 1);
    assert_eq!(diffs[0].status, "removed");
    assert_eq!(diffs[0].ref_value, "C1");
    assert_eq!(diffs[0].a_index, Some(0));
    assert_eq!(diffs[0].b_index, None);

    let merged = update_and_append_boms(&a, &b).unwrap();
    assert_eq!(merged.rows, vec![text_row(&["C1", "PN1"])]);
}

#[test]
fn the_first_row_of_a_key_stands_for_it() {
    let a = table(&[&["C1", "PN1"]]);
    let b = table(&[&["C1", "PN1"], &["C1", "PN9"]]);
    let diffs = compare_boms(&a, &b);
    assert_eq!(diffs.len(), 1);
    assert_eq!(diffs[0].status, "unchanged");
    assert_eq!(diffs[0].b_index, Some(0));
}

#[test]
fn rows_without_key_are_not_reported() {
    let a = table(&[&["", "PN1"], &["C1", "PN1"]]);
    let b = table(&[&["  ", "PN7"], &["C1", "PN1"]]);
    let diffs = compare_boms(&a, &b);
    assert_eq!(diffs.len(), 1);
    assert_eq!(diffs[0].a_index, Some(1));
    assert_eq!(diffs[0].b_index, Some(1));
    assert_eq!(diffs[0].status, "unchanged");
}

#[test]
fn ragged_rows_count_the_missing_columns_as_changed() {
    let a = table(&[&["C1", "PN1", "x"]]);
    let b = table(&[&["C1", " PN1 "]]);
    let diffs = compare_boms(&a, &b);
    assert_eq!(diffs[0].status, "modified");
    assert_eq!(diffs[0].changed_columns, vec!["col-2".to_string()]);
}

#[test]
fn comparing_a_table_with_itself_changes_nothing() {
    let a = table(&[&["C1", "PN1"], &["C2", "PN2"], &["", "zz"], &["C3"]]);
    let diffs = compare_boms(&a, &a);
    assert_eq!(diffs.len(), 3);
    for d in &diffs {
        assert_eq!(d.status, "unchanged");
        assert!(d.changed_columns.is_empty());
    }
}

#[test]
fn added_and_removed_keys_mirror_each_other() {
    let a = table(&[&["C1", "PN1"], &["C2", "PN2"], &["C5", "PN2"]]);
    let b = table(&[&["C2", "PN2"], &["C3", "PN3"], &["C4", "PN3"]]);
    let ab = compare_boms(&a, &b);
    let ba = compare_boms(&b, &a);
    let mut added: Vec<String> =
        ab.iter().filter(|d| d.status == "added").map(|d| d.ref_value.clone()).collect();
    let mut removed: Vec<String> =
        ba.iter().filter(|d| d.status == "removed").map(|d| d.ref_value.clone()).collect();
    added.sort();
    removed.sort();
    assert_eq!(added, vec!["C3".to_string(), "C4".to_string()]);
    assert_eq!(added, removed);
}

#[test]
fn merging_nothing_changes_nothing() {
    let a = table(&[&["C1", "PN1"], &["", " "], &["C2"]]);
    let b = table(&[]);
    let merged = update_and_append_boms(&a, &b).unwrap();
    assert_eq!(merged.rows, a.rows);
    assert_eq!(merged.headers, a.headers);
    assert_eq!(merged.column_order, a.column_order);
    assert_eq!(merged.column_roles.len(), 2);
    assert_eq!(merged.column_roles[0].role, "ref");
    assert_eq!(merged.column_roles[1].column_ids, vec!["col-1".to_string()]);
    assert!(merged.diagnostics.is_empty());
    assert_eq!(merged.row_numbers, vec![1, 2, 3]);
}

#[test]
fn a_blank_overlay_cell_keeps_the_base_cell() {
    let a = table(&[&["C1", "PN1", "10k"]]);
    let b = table(&[&["C1", "  ", "22k"]]);
    let merged = update_and_append_boms(&a, &b).unwrap();
    assert_eq!(merged.rows, vec![text_row(&["C1", "PN1", "22k"])]);
}

#[test]
fn a_longer_overlay_row_extends_the_base_row() {
    let a = table(&[&["C1"]]);
    let b = table(&[&["C1", " ", "", "x", " "]]);
    let merged = update_and_append_boms(&a, &b).unwrap();
    assert_eq!(merged.rows, vec![text_row(&["C1", "", "", "x"])]);
}

#[test]
fn duplicate_keys_pair_off_in_order() {
    let a = table(&[&["C1", "a"], &["C1", "b"], &["C1", "c"], &["", "k"]]);
    let b = table(&[&["C1", "x"], &["", "e"], &["C1", "y"], &["C9", "z"]]);
    let merged = update_and_append_boms(&a, &b).unwrap();
    assert_eq!(
        merged.rows,
        vec![
            text_row(&["C1", "x"]),
            text_row(&["C1", "y"]),
            text_row(&["C1", "c"]),
            text_row(&["", "k"]),
            text_row(&["", "e"]),
            text_row(&["C9", "z"]),
        ]
    );
    assert_eq!(merged.row_numbers, vec![1, 2, 3, 4, 5, 6]);
}

#[test]
fn surplus_overlay_duplicates_are_appended() {
    let a = table(&[&["C1", "a"]]);
    let b = table(&[&["C1", "x"], &["C1", "y"]]);
    let merged = update_and_append_boms(&a, &b).unwrap();
    assert_eq!(merged.rows, vec![text_row(&["C1", "x"]), text_row(&["C1", "y"])]);
}
