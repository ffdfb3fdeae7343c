use bomsync::dictionary::{check_rule_names, dictionary_file, dictionary_file_name};
use bomsync::files::{file_kind, FileKind};
use bomsync::matchers::IpcMasterRule;
use bomsync::models::ColumnMeta;
use bomsync::normalizer::{normalize_bom_data, ColumnRole};
use bomsync::project::{numbered_label, window_label};

fn text_row(cells: &[&str]) -> Vec<String> {
    cells.iter().map(|c| c.to_string()).collect()
}

fn rule(name: &str) -> IpcMasterRule {
    IpcMasterRule { rule_name: name.to_string(), conditions: vec![], output_name: "x".to_string() }
}

fn column(id: &str, name: &str) -> ColumnMeta {
    ColumnMeta { id: id.to_string(), name: name.to_string() }
}

fn role(id: &str, role: &str) -> ColumnRole {
    ColumnRole { column_id: id.to_string(), role: role.to_string() }
}

#[test]
fn dictionaries_have_their_files() {
    assert_eq!(dictionary_file_name("ipc_master"), Some("ipc_master.json"));
    assert_eq!(dictionary_file_name("exception_master"), Some("exception_master.json"));
    assert_eq!(dictionary_file_name("column_alias"), Some("column_alias.json"));
    assert_eq!(dictionary_file_name("other"), None);
    assert_eq!(dictionary_file("column_alias").unwrap(), "column_alias.json");
    assert_eq!(dictionary_file("../x").unwrap_err().message, "未知の辞書名です: ../x");
}

#[test]
fn rule_names_must_differ() {
    assert!(check_rule_names(&vec![]).is_ok());
    assert!(check_rule_names(&vec![rule("a"), rule(""), rule("b"), rule("  "), rule("")]).is_ok());
    let e = check_rule_names(&vec![rule("a"), rule("b"), rule(" a "), rule("b")]).unwrap_err();
    assert_eq!(e.message, "ルール名'a'が重複しています。");
}

#[test]
fn extensions_name_the_kind_of_file() {
    assert_eq!(file_kind(Some("csv")).unwrap(), FileKind::Csv);
    assert_eq!(file_kind(Some("CSV")).unwrap(), FileKind::Csv);
    assert_eq!(file_kind(Some("xlsx")).unwrap(), FileKind::Excel);
    for e in ["eco", "ccf", "msf", "net", "Net"] {
        assert_eq!(file_kind(Some(e)).unwrap(), FileKind::Cad);
    }
    assert_eq!(
        file_kind(Some("PDF")).unwrap_err().message,
        "サポートされていないファイル形式です: pdf"
    );
    assert_eq!(file_kind(None).unwrap_err().message, "ファイル拡張子を判定できませんでした。");
}

#[test]
fn window_labels() {
    assert_eq!(window_label("My Project #1"), "My-Project--1");
    assert_eq!(window_label("--a/b--"), "a-b");
    assert_eq!(window_label("プロジェクト"), "project");
    assert_eq!(window_label(""), "project");
    assert_eq!(window_label("abc"), "abc");
    assert_eq!(numbered_label("abc", 0), "abc");
    assert_eq!(numbered_label("abc", 1), "abc-1");
    assert_eq!(numbered_label("abc", 12), "abc-12");
}

#[test]
fn rows_are_read_by_their_fields() {
    let columns = vec![
        column("col-0", "Ref"),
        column("col-1", "Part"),
        column("col-2", "Maker"),
        column("col-3", "Value"),
        column("col-4", "Note"),
    ];
    let roles = vec![
        role("col-0", "ref"),
        role("col-1", "part_no"),
        role("col-2", "manufacturer"),
        role("col-4", "ignore"),
    ];
    let rows = vec![text_row(&[" C1 ", "PN1", " Murata ", "0.1uF", ""]), text_row(&["R1"])];
    let out = normalize_bom_data(columns, rows, roles).unwrap();
    assert_eq!(out.len(), 2);
    assert_eq!(out[0].reference, "C1");
    assert_eq!(out[0].part_no, "PN1");
    assert_eq!(out[0].attributes.len(), 3);
    assert_eq!(out[0].attributes.get("manufacturer"), Some(&"Murata".to_string()));
    assert_eq!(out[0].attributes.get("Maker"), Some(&"Murata".to_string()));
    assert_eq!(out[0].attributes.get("Value"), Some(&"0.1uF".to_string()));
    assert_eq!(out[0].attributes.get("Note"), None);
    assert_eq!(out[1].reference, "R1");
    assert_eq!(out[1].part_no, "");
    assert_eq!(out[1].attributes.len(), 0);
}

#[test]
fn fields_need_a_reference_and_a_part_number() {
    let e = normalize_bom_data(vec![], vec![], vec![role("col-0", "ref")]).err().unwrap();
    assert_eq!(e.message, "部品番号（ref）と部品型番（part_no）の列を指定してください。");
    let e = normalize_bom_data(vec![], vec![], vec![role("col-0", "part_no")]).err().unwrap();
    assert_eq!(e.message, "部品番号（ref）と部品型番（part_no）の列を指定してください。");
    let ok = normalize_bom_data(vec![], vec![], vec![role("a", "part_no"), role("b", "ref")]);
    assert!(ok.is_ok());
}
