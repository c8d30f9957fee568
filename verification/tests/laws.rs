//! The library's laws, on concrete values.

use dotpick::input::parse;
use dotpick::path::parse_paths;
use dotpick::project::{flat, select_all, structured};
use dotpick::value::Node;
use dotpick::{run, DotpickError, InputFormat, OutputFormat, Request};

fn req(input: &str, paths: &str) -> Request {
    Request {
        input: input.to_string(),
        from: None,
        paths: paths.to_string(),
        flat: false,
        to: None,
        allow_missing: false,
        pretty: false,
    }
}

const DOC: &str = r#"{"items":[{"n":1,"x":{"y":true}},{"n":2,"x":{"y":false}}],"meta":{"k":"v","z":null}}"#;

#[test]
fn root_path_returns_the_whole_document() {
    assert_eq!(
        run(&req(DOC, ".")).unwrap(),
        r#"{"items":[{"n":1,"x":{"y":true}},{"n":2,"x":{"y":false}}],"meta":{"k":"v","z":null}}"#
    );
}

#[test]
fn skipping_missing_paths_fails_only_without_a_match() {
    let r = Request { allow_missing: true, ..req(DOC, ".nope,.items[].q,.items[9],.meta.k.deeper,.items.x") };
    assert_eq!(run(&r).unwrap(), r#"{"items":[]}"#);
    let r = Request { allow_missing: true, ..req(DOC, ".nope,.items[9],.meta.k.deeper,.items.x") };
    let err = run(&r).unwrap_err();
    assert_eq!(err.exit_code(), 1);
    assert_eq!(
        err,
        DotpickError::PathNotFound {
            path: ".nope,.items[9],.meta.k.deeper,.items.x".into(),
            hint: None
        }
    );
    let r = Request { allow_missing: true, ..req(DOC, ".nope,.meta.k") };
    assert_eq!(run(&r).unwrap(), r#"{"meta":{"k":"v"}}"#);
}

#[test]
fn projection_keeps_the_selected_leaves() {
    let paths = ".items[].x.y";
    let pruned = run(&req(DOC, paths)).unwrap();
    let raw_of = |doc: &str| {
        run(&Request { to: Some(OutputFormat::Raw), ..req(doc, paths) }).unwrap()
    };
    assert_eq!(pruned, r#"{"items":[{"x":{"y":true}},{"x":{"y":false}}]}"#);
    assert_eq!(raw_of(&pruned), raw_of(DOC));
    assert_eq!(raw_of(DOC), "true\nfalse");
}

#[test]
fn repeating_a_path_changes_nothing() {
    assert_eq!(
        run(&req(DOC, ".items[].x,.items[].x")).unwrap(),
        run(&req(DOC, ".items[].x")).unwrap()
    );
    assert_eq!(run(&req(DOC, ".meta,.meta")).unwrap(), r#"{"meta":{"k":"v","z":null}}"#);
}

#[test]
fn leading_dot_is_optional_for_every_form() {
    for raw in ["a", "a.b", "a[0]", "a[].b", "a[\"x.y\"]", "[0]", "[]", "a!", "a.", "[\"k]"] {
        let plain = parse_paths(raw).map(|mut p| p.pop().unwrap().segments);
        let dotted = parse_paths(&format!(".{raw}")).map(|mut p| p.pop().unwrap().segments);
        match (plain, dotted) {
            (Ok(p), Ok(q)) => assert_eq!(p, q, "{raw}"),
            (Err(_), Err(_)) => {}
            other => panic!("{raw}: {other:?}"),
        }
    }
}

#[test]
fn flat_names_are_distinct() {
    let r = Request { flat: true, ..req(DOC, ".meta.k,.items[].n,.meta.z") };
    assert_eq!(run(&r).unwrap(), r#"{"k":"v","n":[1,2],"z":null}"#);
}

#[test]
fn ndjson_input_defaults_to_ndjson_output_and_projects_each_record() {
    let r = Request { from: Some(InputFormat::Ndjson), ..req("{\"a\":{\"b\":1}}\r\n\n  \n{\"a\":{\"b\":2}}", ".a") };
    assert_eq!(run(&r).unwrap(), "{\"b\":1}\n{\"b\":2}");
    let r = Request { to: Some(OutputFormat::Json), ..r };
    assert_eq!(run(&r).unwrap(), r#"[{"a":{"b":1}},{"a":{"b":2}}]"#);
}

#[test]
fn schema_lists_every_error_kind_with_its_exit_code() {
    let v: serde_json::Value =
        serde_json::from_str(&dotpick::schema::contract_json()).unwrap();
    let table = v["errors"].as_array().unwrap();
    for (kind, code) in [
        ("parse", 2),
        ("serialize", 2),
        ("path_not_found", 1),
        ("type_mismatch", 1),
        ("path_syntax", 3),
        ("name_collision", 3),
        ("raw_non_scalar", 3),
    ] {
        let row = table.iter().find(|r| r["kind"] == kind).expect(kind);
        assert_eq!(row["exit_code"], code);
    }
    for c in v["commands"].as_array().unwrap() {
        assert_eq!(c["mutating"], false);
    }
}

#[test]
fn merged_projection_keeps_every_selection_and_adds_nothing() {
    let paths = [".items[].n", ".meta.k", ".items[].x", ".meta", ".items[].x.y"];
    let all = paths.join(",");
    let merged = run(&req(DOC, &all)).unwrap();
    assert_eq!(
        merged,
        r#"{"items":[{"n":1,"x":{"y":true}},{"n":2,"x":{"y":false}}],"meta":{"k":"v","z":null}}"#
    );
    let ndjson_of = |doc: &str, p: &str| {
        run(&Request { to: Some(OutputFormat::Ndjson), ..req(doc, p) }).unwrap()
    };
    for p in paths {
        assert_eq!(ndjson_of(&merged, p), ndjson_of(DOC, p), "{p}");
    }
    let some = ".items[].x.y,.meta.z";
    let part = run(&req(DOC, some)).unwrap();
    assert_eq!(part, r#"{"items":[{"x":{"y":true}},{"x":{"y":false}}],"meta":{"z":null}}"#);
    assert_eq!(run(&req(&part, ".")).unwrap(), part);
    assert_eq!(ndjson_of(&part, ".items[].x.y"), "true\nfalse");
    assert_eq!(ndjson_of(&part, ".meta.z"), "null");
}

#[test]
fn yaml_and_toml_output_end_without_whitespace() {
    for to in [OutputFormat::Yaml, OutputFormat::Toml] {
        let out = run(&Request { to: Some(to), ..req(DOC, ".meta.k,.items[].n") }).unwrap();
        assert!(!out.is_empty());
        assert!(!out.ends_with(char::is_whitespace), "{out:?}");
    }
    let yaml = run(&Request { to: Some(OutputFormat::Yaml), ..req(DOC, ".meta.k") }).unwrap();
    assert_eq!(yaml, "meta:\n  k: v");
}

fn keys(v: &Node) -> Vec<String> {
    match v {
        Node::Object(es) => es.iter().map(|(k, _)| k.clone()).collect(),
        _ => panic!("not an object"),
    }
}

#[test]
fn projections_keep_object_keys_in_ascending_order() {
    let root = parse(DOC, None).unwrap().pop().unwrap();
    assert_eq!(keys(&root), vec!["items", "meta"]);
    let paths = parse_paths(".meta.z,.meta.k,.items[].n").unwrap();
    let f = flat(&root, &paths, false).unwrap();
    assert_eq!(keys(&f), vec!["k", "n", "z"]);
    let s = structured(&root, &paths, false).unwrap();
    assert_eq!(keys(&s), vec!["items", "meta"]);
    match &s {
        Node::Object(es) => assert_eq!(keys(&es[1].1), vec!["k", "z"]),
        _ => unreachable!(),
    }
}

#[test]
fn empty_projection_is_a_no_match_failure() {
    let skip = |to: Option<OutputFormat>, flat: bool| Request {
        allow_missing: true,
        to,
        flat,
        ..req(r#"{"a":1}"#, ".b")
    };
    for (to, flat) in [
        (None, false),
        (None, true),
        (Some(OutputFormat::Raw), false),
        (Some(OutputFormat::Ndjson), false),
        (Some(OutputFormat::Yaml), false),
    ] {
        let err = run(&skip(to, flat)).unwrap_err();
        assert_eq!(err.exit_code(), 1, "{to:?} {flat}");
        assert_eq!(err.message(), "path .b not found");
    }
    let none = Request { to: Some(OutputFormat::Raw), ..req(r#"{"items":[]}"#, ".items[]") };
    assert_eq!(run(&none).unwrap_err().exit_code(), 1);
}

#[test]
fn indexed_paths_into_one_array_keep_every_leaf() {
    let doc = r#"{"items":[{"n":1,"m":0},{"n":2,"m":0},{"n":3,"m":0}]}"#;
    assert_eq!(run(&req(doc, ".items[0].n,.items[1].n")).unwrap(), r#"{"items":[{"n":1},{"n":2}]}"#);
    assert_eq!(run(&req(doc, ".items[2].n,.items[0].n")).unwrap(), r#"{"items":[{"n":1},{"n":3}]}"#);
    assert_eq!(run(&req(doc, ".items[1].n")).unwrap(), r#"{"items":[{"n":2}]}"#);
    assert_eq!(
        run(&req(doc, ".items[1].m,.items[].n")).unwrap(),
        r#"{"items":[{"n":1},{"m":0,"n":2},{"n":3}]}"#
    );
    assert_eq!(run(&req(doc, ".items,.items[1].n")).unwrap(), run(&req(doc, ".items")).unwrap());
    let skipping = Request {
        allow_missing: true,
        ..req(r#"{"items":[{"b":1},{"a":2,"b":3}]}"#, ".items[].a,.items[].b")
    };
    assert_eq!(run(&skipping).unwrap(), r#"{"items":[{"b":1},{"a":2,"b":3}]}"#);
}

#[test]
fn output_never_ends_in_a_newline() {
    let doc = r#"{"s":"line\n","t":"x\r\n\n","e":""}"#;
    let raw = |p: &str| run(&Request { to: Some(OutputFormat::Raw), ..req(doc, p) }).unwrap();
    assert_eq!(raw(".s"), "line");
    assert_eq!(raw(".s,.t"), "line\n\nx\r");
    assert_eq!(raw(".t,.e"), "x\r");
    for to in [None, Some(OutputFormat::Yaml), Some(OutputFormat::Ndjson)] {
        let out = run(&Request { to, ..req(doc, ".s,.t,.e") }).unwrap();
        assert!(!out.ends_with('\n'), "{to:?}: {out:?}");
    }
    let pretty = run(&Request { pretty: true, ..req(doc, ".s") }).unwrap();
    assert!(!pretty.ends_with('\n'));
}

#[test]
fn strict_success_matches_skipping() {
    for paths in [".items[].n", ".items[1].x.y,.meta", "meta.k,.items[0]"] {
        for flat in [false, true] {
            let strict = Request { flat, ..req(DOC, paths) };
            let skipping = Request { allow_missing: true, ..strict.clone() };
            assert_eq!(run(&strict), run(&skipping), "{paths} flat={flat}");
        }
    }
}

#[test]
fn merging_a_path_with_a_part_of_it_changes_nothing() {
    assert_eq!(run(&req(DOC, ".items,.items[].n")).unwrap(), run(&req(DOC, ".items")).unwrap());
    assert_eq!(run(&req(DOC, ".meta.k,.meta")).unwrap(), r#"{"meta":{"k":"v","z":null}}"#);
    assert_eq!(
        run(&req(DOC, ".items[0].x,.items[0].x.y")).unwrap(),
        r#"{"items":[{"x":{"y":true}}]}"#
    );
}

#[test]
fn pruned_path_selects_the_same_with_indexes_from_zero() {
    let pruned = run(&req(DOC, ".items[1].x.y")).unwrap();
    assert_eq!(pruned, r#"{"items":[{"x":{"y":false}}]}"#);
    let raw = |doc: &str, p: &str| {
        run(&Request { to: Some(OutputFormat::Raw), ..req(doc, p) }).unwrap()
    };
    assert_eq!(raw(&pruned, ".items[0].x.y"), raw(DOC, ".items[1].x.y"));
}

#[test]
fn path_lists_are_parsed_piece_by_piece() {
    let ps = parse_paths(".a, b.c ,.d[]").unwrap();
    assert_eq!(ps.len(), 3);
    let first_bad = parse_paths(".a,.b!,.c..d").unwrap_err();
    assert_eq!(first_bad, parse_paths(".b!").unwrap_err());
    let empty = parse_paths(" ").unwrap_err();
    assert_eq!(
        empty,
        DotpickError::PathSyntax { path: " ".into(), message: "no paths given".into() }
    );
}

#[test]
fn selecting_every_path_concatenates_the_selections() {
    let records = parse(DOC, Some(InputFormat::Json)).unwrap();
    let ps = parse_paths(".items[].n,.meta.k").unwrap();
    let texts: Vec<(String, Node)> = select_all(&records[0], &ps, false).unwrap();
    assert_eq!(texts.len(), 3);
    assert_eq!(texts[0].0, ".items[].n");
    assert_eq!(texts[2].0, ".meta.k");
    assert!(matches!(&texts[0].1, Node::Number(n) if n == "1"));
    assert!(matches!(&texts[1].1, Node::Number(n) if n == "2"));
    assert!(matches!(&texts[2].1, Node::String(s) if s == "v"));
}

#[test]
fn flat_output_has_one_entry_per_kept_path() {
    let flat_of = |paths: &str, allow_missing: bool| {
        run(&Request { flat: true, allow_missing, ..req(DOC, paths) })
    };
    assert_eq!(flat_of(".meta.k,.nope.k", true).unwrap(), r#"{"k":"v"}"#);
    assert_eq!(flat_of(".items[].q", true).unwrap(), r#"{"q":[]}"#);
    assert_eq!(flat_of(".meta.z,.items[0].x.y", false).unwrap(), r#"{"y":true,"z":null}"#);
    assert_eq!(
        flat_of(".meta.k,.items[].k", true).unwrap_err(),
        DotpickError::NameCollision { name: "k".into() }
    );
}

#[test]
fn raw_output_lists_every_selected_scalar_record_by_record() {
    let input = "{\"a\":1,\"b\":\"x\"}\n{\"a\":2,\"b\":\"y\",\"c\":[1]}\n";
    let raw = |paths: &str, allow_missing: bool| {
        run(&Request {
            from: Some(InputFormat::Ndjson),
            to: Some(OutputFormat::Raw),
            allow_missing,
            ..req(input, paths)
        })
    };
    assert_eq!(raw(".a,.b", false).unwrap(), "1\nx\n2\ny");
    assert_eq!(
        raw(".c", false).unwrap_err(),
        DotpickError::PathNotFound { path: ".c".into(), hint: Some("a".into()) }
    );
    assert_eq!(
        raw(".a,.c", true).unwrap_err(),
        DotpickError::RawNonScalar { path: ".c".into(), found: "an array".into() }
    );
}

#[test]
fn pretty_and_flat_matter_only_where_they_apply() {
    for to in [Some(OutputFormat::Yaml), Some(OutputFormat::Raw), Some(OutputFormat::Ndjson)] {
        let base = Request { to, ..req(DOC, ".meta.k") };
        assert_eq!(run(&Request { pretty: true, ..base.clone() }), run(&base), "{to:?}");
    }
    for to in [Some(OutputFormat::Raw), Some(OutputFormat::Ndjson)] {
        let base = Request { to, ..req(DOC, ".items[].n") };
        assert_eq!(run(&Request { flat: true, ..base.clone() }), run(&base), "{to:?}");
    }
}

#[test]
fn raw_output_keeps_a_trailing_carriage_return() {
    let doc = r#"{"a":"x\r","b":"y\r\n"}"#;
    let raw = |p: &str| run(&Request { to: Some(OutputFormat::Raw), ..req(doc, p) }).unwrap();
    assert_eq!(raw(".a"), "x\r");
    assert_eq!(raw(".b"), "y\r");
    assert_eq!(raw(".b,.a"), "y\r\n\nx\r");
}

#[test]
fn toml_tables_come_out_with_keys_in_order() {
    let toml = "z = -42\na = 1979-05-27T07:32:00Z\n[m]\ny = true\nb = 1.5\n";
    let out = run(&Request { from: Some(InputFormat::Toml), ..req(toml, ".") }).unwrap();
    assert_eq!(out, r#"{"a":"1979-05-27T07:32:00Z","m":{"b":1.5,"y":true},"z":-42}"#);
}

#[test]
fn default_output_follows_the_input_format() {
    let ndjson = "{\"a\":1}\n{\"a\":2}\n";
    let by_default = Request { from: Some(InputFormat::Ndjson), ..req(ndjson, ".a") };
    let forced = Request { to: Some(OutputFormat::Ndjson), ..by_default.clone() };
    assert_eq!(run(&by_default), run(&forced));
    assert_eq!(run(&by_default).unwrap(), "1\n2");
    let json = req(DOC, ".meta.k");
    assert_eq!(run(&json), run(&Request { to: Some(OutputFormat::Json), ..json.clone() }));
}
