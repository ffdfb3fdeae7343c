use bomsync::matchers::{
    apply_ipc_names, condition_matches, find_matching_ipc_name, get_field_value, value_matches,
    wildcard_match, ExceptionMasterEntry, IpcMasterRule, MasterCondition,
};
use bomsync::models::{ColumnMeta, ParseResult, RoleColumns};

fn text_row(cells: &[&str]) -> Vec<String> {
    cells.iter().map(|c| c.to_string()).collect()
}

fn table() -> ParseResult {
    ParseResult {
        rows: vec![
            text_row(&["C1", "GRM155", "Murata", "0.1uF", " tape "]),
            text_row(&["R1", "rc0402", "", "10k"]),
            text_row(&["U1", "", "TI", ""]),
        ],
        column_roles: vec![
            RoleColumns { role: "ref".to_string(), column_ids: vec!["col-0".to_string()] },
            RoleColumns { role: "part_no".to_string(), column_ids: vec!["col-1".to_string()] },
            RoleColumns {
                role: "manufacturer".to_string(),
                column_ids: vec!["col-2".to_string()],
            },
            RoleColumns { role: "value".to_string(), column_ids: vec!["col-3".to_string()] },
        ],
        column_order: vec![],
        headers: text_row(&["Ref", "Part", "Maker", "Value", "Package"]),
        columns: vec![ColumnMeta { id: "col-0".to_string(), name: "Ref".to_string() }],
        row_numbers: vec![1, 2, 3],
        diagnostics: vec![],
    }
}

fn condition(field: &str, match_type: &str, value: &str) -> MasterCondition {
    MasterCondition {
        field: field.to_string(),
        match_type: match_type.to_string(),
        value: value.to_string(),
    }
}

fn rule(name: &str, conditions: Vec<MasterCondition>, output: &str) -> IpcMasterRule {
    IpcMasterRule {
        rule_name: name.to_string(),
        conditions,
        output_name: output.to_string(),
    }
}

#[test]
fn globs() {
    assert!(wildcard_match("anything", "*"));
    assert!(wildcard_match("", "*"));
    assert!(wildcard_match("", ""));
    assert!(!wildcard_match("a", ""));
    assert!(wildcard_match("abc", "abc"));
    assert!(!wildcard_match("abc", "abd"));
    assert!(wildcard_match("grm155r71", "grm*"));
    assert!(wildcard_match("grm155r71", "*r71"));
    assert!(wildcard_match("grm155r71", "g*155*1"));
    assert!(wildcard_match("grm155r71", "**grm155r71**"));
    assert!(!wildcard_match("grm155r71", "g*156*1"));
    assert!(!wildcard_match("ab", "ab*b"));
    assert!(wildcard_match("abb", "ab*b"));
    assert!(wildcard_match("aXbXc", "a*b*c"));
    assert!(!wildcard_match("aXbX", "a*b*c"));
    assert!(wildcard_match("mississippi", "m*iss*ppi"));
    assert!(!wildcard_match("mississippi", "m*iss*ppx"));
}

#[test]
fn value_matching_is_case_insensitive() {
    assert!(value_matches("GRM155", "grm155", "equals"));
    assert!(!value_matches("GRM155", "grm15", "equals"));
    assert!(value_matches("GRM155", "M15", "contains"));
    assert!(value_matches("GRM155", "grm", " Starts_With "));
    assert!(!value_matches("GRM155", "155", "starts_with"));
    assert!(value_matches("GRM155", "155", "ends_with"));
    assert!(value_matches("GRM155", "g*5", "wildcard"));
    assert!(!value_matches("GRM155", "g*6", "wildcard"));
    assert!(!value_matches("G*5", "g*5x", "wildcard"));
}

#[test]
fn an_unknown_way_of_matching_goes_by_the_pattern() {
    assert!(value_matches("GRM155", "grm*", ""));
    assert!(value_matches("GRM155", "grm155", "whatever"));
    assert!(!value_matches("GRM155", "grm", "whatever"));
    assert!(!value_matches("GRM155", "x*", "regex"));
}

#[test]
fn fields_are_read_by_role_or_by_header() {
    let t = table();
    assert_eq!(get_field_value(&t, 0, " REF "), Some("C1".to_string()));
    assert_eq!(get_field_value(&t, 0, "reference"), Some("C1".to_string()));
    assert_eq!(get_field_value(&t, 0, "partNumber"), Some("GRM155".to_string()));
    assert_eq!(get_field_value(&t, 0, "部品型番"), Some("GRM155".to_string()));
    assert_eq!(get_field_value(&t, 0, "メーカー"), Some("Murata".to_string()));
    assert_eq!(get_field_value(&t, 0, "値"), Some("0.1uF".to_string()));
    assert_eq!(get_field_value(&t, 0, "package"), Some(" tape ".to_string()));
    assert_eq!(get_field_value(&t, 1, "package"), None);
    assert_eq!(get_field_value(&t, 1, "manufacturer"), None);
    assert_eq!(get_field_value(&t, 2, "part_no"), None);
    assert_eq!(get_field_value(&t, 0, "nothing"), None);
    assert_eq!(get_field_value(&t, 9, "ref"), None);
    assert_eq!(get_field_value(&t, 9, "package"), None);
}

#[test]
fn conditions() {
    let t = table();
    assert!(condition_matches(&t, 0, &condition("part_no", "starts_with", "grm")));
    assert!(!condition_matches(&t, 1, &condition("part_no", "starts_with", "grm")));
    assert!(!condition_matches(&t, 2, &condition("part_no", "wildcard", "*")));
    assert!(condition_matches(&t, 2, &condition("manufacturer", "", "ti")));
}

#[test]
fn the_last_rule_that_holds_gives_the_name() {
    let t = table();
    let rules = vec![
        rule("caps", vec![condition("ref", "wildcard", "c*")], "CAP"),
        rule(
            "murata caps",
            vec![condition("ref", "wildcard", "c*"), condition("manufacturer", "equals", "murata")],
            "CAP-MURATA",
        ),
        rule("resistors", vec![condition("ref", "starts_with", "r")], "RES"),
    ];
    assert_eq!(find_matching_ipc_name(&t, 0, &rules), Some("CAP-MURATA".to_string()));
    assert_eq!(find_matching_ipc_name(&t, 1, &rules), Some("RES".to_string()));
    assert_eq!(find_matching_ipc_name(&t, 2, &rules), None);
    let always = vec![rule("all", vec![], "ANY")];
    assert_eq!(find_matching_ipc_name(&t, 2, &always), Some("ANY".to_string()));
    assert_eq!(find_matching_ipc_name(&t, 0, &vec![]), None);
}

#[test]
fn names_are_assigned_into_a_new_column() {
    let t = table();
    let rules = vec![
        rule("caps", vec![condition("ref", "wildcard", "c*")], "CAP"),
        rule("all", vec![], "ANY"),
        rule("resistors", vec![condition("ref", "starts_with", "r")], "RES"),
    ];
    let exceptions = vec![
        ExceptionMasterEntry { part_no: "  ".to_string(), output_name: "never".to_string() },
        ExceptionMasterEntry { part_no: "RC0402".to_string(), output_name: "first".to_string() },
        ExceptionMasterEntry { part_no: "Rc0402".to_string(), output_name: "SPECIAL".to_string() },
    ];
    let named = apply_ipc_names(&t, rules, exceptions).unwrap();
    assert_eq!(named.headers, text_row(&["Ref", "Part", "Maker", "Value", "Package", "assigned_name"]));
    assert_eq!(named.column_roles.len(), 5);
    assert_eq!(named.column_roles[4].role, "assigned_name");
    assert_eq!(named.column_roles[4].column_ids, vec!["col-5".to_string()]);
    assert_eq!(
        named.rows,
        vec![
            text_row(&["C1", "GRM155", "Murata", "0.1uF", " tape ", "ANY"]),
            text_row(&["R1", "rc0402", "", "10k", "", "SPECIAL"]),
            text_row(&["U1", "", "TI", "", "", ""]),
        ]
    );
    assert_eq!(named.row_numbers, vec![1, 2, 3]);
}

#[test]
fn names_go_into_the_known_column() {
    let mut t = table();
    t.column_roles.push(RoleColumns {
        role: "assigned_name".to_string(),
        column_ids: vec!["col-4".to_string()],
    });
    let rules = vec![rule("caps", vec![condition("ref", "wildcard", "c*")], "CAP")];
    let named = apply_ipc_names(&t, rules, vec![]).unwrap();
    assert_eq!(named.headers, t.headers);
    assert_eq!(named.column_roles.len(), 5);
    assert_eq!(
        named.rows,
        vec![
            text_row(&["C1", "GRM155", "Murata", "0.1uF", "CAP"]),
            text_row(&["R1", "rc0402", "", "10k", ""]),
            text_row(&["U1", "", "TI", "", ""]),
        ]
    );
}
