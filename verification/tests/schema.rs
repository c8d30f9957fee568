//! The agent contract emitted by `dotpick schema`.

#[test]
fn schema_declares_required_clispec_fields() {
    let v: serde_json::Value =
        serde_json::from_str(&dotpick::schema::contract_json()).expect("contract is valid JSON");
    assert_eq!(v["clispec"], "0.2");
    assert_eq!(v["name"], "dotpick");
    assert!(v["commands"].as_array().is_some_and(|c| !c.is_empty()));
    assert!(v["global_args"].as_array().is_some_and(|g| !g.is_empty()));
    assert!(v["errors"].as_array().is_some_and(|e| !e.is_empty()));

    // The default command is declared read-only (a trust contract).
    let project = v["commands"]
        .as_array()
        .unwrap()
        .iter()
        .find(|c| c["name"] == "project")
        .expect("project command present");
    assert_eq!(project["mutating"], false);
}

#[test]
fn schema_subcommand_is_clispec_v0_2() {
    let v: serde_json::Value =
        serde_json::from_str(&dotpick::schema::contract_json()).expect("valid JSON");
    assert_eq!(v["clispec"], "0.2");
    assert_eq!(v["name"], "dotpick");
}

#[test]
fn contract_lists_every_command_and_error_kind() {
    let v: serde_json::Value = serde_json::from_str(&dotpick::schema::contract_json()).unwrap();
    assert_eq!(v["version"], dotpick::schema::TOOL_VERSION);
    let names: Vec<&str> = v["commands"]
        .as_array()
        .unwrap()
        .iter()
        .map(|c| c["name"].as_str().unwrap())
        .collect();
    assert_eq!(names, vec!["schema", "project", "completions"]);
    for c in v["commands"].as_array().unwrap() {
        assert_eq!(c["mutating"], false);
        assert_eq!(c["stability"], "stable");
    }
    let errors: Vec<(String, i64)> = v["errors"]
        .as_array()
        .unwrap()
        .iter()
        .map(|e| (e["kind"].as_str().unwrap().to_string(), e["exit_code"].as_i64().unwrap()))
        .collect();
    let expected: Vec<(String, i64)> = vec![
        ("usage", 3),
        ("path_syntax", 3),
        ("name_collision", 3),
        ("raw_non_scalar", 3),
        ("path_not_found", 1),
        ("type_mismatch", 1),
        ("parse", 2),
        ("serialize", 2),
        ("io", 2),
    ]
    .into_iter()
    .map(|(k, c)| (k.to_string(), c))
    .collect();
    assert_eq!(errors, expected);
    let flags: Vec<&str> = v["global_args"]
        .as_array()
        .unwrap()
        .iter()
        .map(|a| a["name"].as_str().unwrap())
        .collect();
    assert_eq!(flags, vec!["--output", "--from", "--flat", "--allow-missing", "--pretty"]);
    assert_eq!(v["global_args"][0]["default"], "auto");
    assert_eq!(v["commands"][1]["example"]["stdin"], "{\"x\":1}");
}
