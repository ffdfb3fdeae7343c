use bomsync::models::{AppError, ColumnMeta, ParseResult, RoleColumns};

fn sample() -> ParseResult {
    ParseResult {
        rows: vec![
            vec![" C1 ".to_string(), "C2".to_string(), "PN1".to_string(), "".to_string()],
            vec!["".to_string(), "  ".to_string()],
        ],
        column_roles: vec![
            RoleColumns {
                role: "ref".to_string(),
                column_ids: vec!["col-0".to_string(), "col-1".to_string(), "col-9".to_string()],
            },
            RoleColumns { role: "part_no".to_string(), column_ids: vec!["col-2".to_string()] },
            RoleColumns { role: "value".to_string(), column_ids: vec!["col-3".to_string()] },
            RoleColumns { role: "odd".to_string(), column_ids: vec!["x".to_string(), "col-+1".to_string()] },
        ],
        column_order: vec![],
        headers: vec![],
        columns: vec![ColumnMeta { id: "col-0".to_string(), name: "Ref".to_string() }],
        row_numbers: vec![1, 2],
        diagnostics: vec![],
    }
}

#[test]
fn values_are_trimmed_and_blank_ones_left_out() {
    let t = sample();
    assert_eq!(t.get_values(0, "ref"), vec!["C1".to_string(), "C2".to_string()]);
    assert_eq!(t.get_values(0, "value"), Vec::<String>::new());
    assert_eq!(t.get_values(0, "manufacturer"), Vec::<String>::new());
    assert_eq!(t.get_values(1, "ref"), Vec::<String>::new());
    assert_eq!(t.get_values(7, "ref"), Vec::<String>::new());
    assert_eq!(t.get_values(0, "odd"), vec!["C2".to_string()]);
}

#[test]
fn the_key_joins_the_reference_values() {
    let t = sample();
    assert_eq!(t.get_ref(0), "C1, C2");
    assert_eq!(t.get_ref(1), "");
    assert_eq!(t.get_ref(2), "");
}

#[test]
fn single_values_take_the_first() {
    let t = sample();
    assert_eq!(t.get_part_no(0), "PN1");
    assert_eq!(t.get_part_no(1), "");
    assert_eq!(t.get_value(0), "");
    assert_eq!(t.get_manufacturer(0), "");
}

#[test]
fn column_indices_follow_the_ids() {
    let t = sample();
    assert_eq!(t.get_column_indices("ref"), vec![0, 1, 9]);
    assert_eq!(t.get_column_indices("odd"), vec![1]);
    assert_eq!(t.get_column_indices("nothing"), Vec::<usize>::new());
}

#[test]
fn has_role_looks_the_id_up() {
    let t = sample();
    assert!(t.has_role("col-1", "ref"));
    assert!(!t.has_role("col-2", "ref"));
    assert!(!t.has_role("col-1", "nothing"));
    assert_eq!(t.column_ids("part_no"), vec!["col-2".to_string()]);
}

#[test]
fn an_error_carries_its_message() {
    let e = AppError::new("no rows");
    assert_eq!(e.message, "no rows");
    assert_eq!(e.describe(), "no rows");
}
