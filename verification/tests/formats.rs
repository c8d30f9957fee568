//! Reading and writing each format, and the edge cases of the grammar.

use dotpick::input::{
    detect_from, format_for_ext, format_from_extension, ndjson_record, parse, single_record,
};
use dotpick::output::{finish_text, join_text};
use dotpick::value::Node;
use dotpick::DotpickError;
use dotpick::path::{parse_paths, Segment};
use dotpick::{run, InputFormat, OutputFormat, Request};

fn req(input: &str, paths: &str) -> Request {
    Request {
        input: input.to_string(),
        from: None,
        paths: paths.to_string(),
        flat: false,
        to: None,
        allow_missing: false,
        pretty: false,
    }
}

#[test]
fn numbers_keep_their_text() {
    let out = run(&req(r#"{"a":1.5,"b":-7,"c":18446744073709551615,"d":1e100}"#, ".")).unwrap();
    assert_eq!(out, r#"{"a":1.5,"b":-7,"c":18446744073709551615,"d":1e+100}"#);
    let r = Request { to: Some(OutputFormat::Raw), ..req(r#"{"a":1.5,"b":true,"c":null}"#, ".a,.b,.c") };
    assert_eq!(run(&r).unwrap(), "1.5\ntrue\nnull");
}

#[test]
fn toml_floats_and_special_values() {
    let r = Request { from: Some(InputFormat::Toml), ..req("f = 2.5\nn = nan\nd = 1979-05-27\n", ".") };
    assert_eq!(run(&r).unwrap(), r#"{"d":"1979-05-27","f":2.5,"n":null}"#);
}

#[test]
fn yaml_round_trip_and_detection() {
    let r = Request { to: Some(OutputFormat::Yaml), ..req("b: [1, 2]\na: x\n", ".") };
    assert_eq!(run(&r).unwrap(), "a: x\nb:\n- 1\n- 2");
}

#[test]
fn toml_output_of_nested_tables() {
    let r = Request { to: Some(OutputFormat::Toml), ..req(r#"{"s":{"t":1},"a":"x"}"#, ".") };
    assert_eq!(run(&r).unwrap(), "a = \"x\"\n\n[s]\nt = 1");
}

#[test]
fn pretty_json_of_many_records() {
    let r = Request {
        from: Some(InputFormat::Ndjson),
        to: Some(OutputFormat::Json),
        pretty: true,
        ..req("{\"a\":1}\n{\"a\":2}\n", ".a")
    };
    assert_eq!(run(&r).unwrap(), "[\n  {\n    \"a\": 1\n  },\n  {\n    \"a\": 2\n  }\n]");
}

#[test]
fn empty_ndjson_renders_an_empty_array_as_json() {
    let r = Request { from: Some(InputFormat::Ndjson), to: Some(OutputFormat::Json), ..req("\n\n", ".a") };
    assert_eq!(run(&r).unwrap(), "[]");
}

#[test]
fn quoted_keys_with_either_quote() {
    let paths = parse_paths(r#"["a b"],['c"d'].e"#).unwrap();
    assert_eq!(paths[0].segments, vec![Segment::Key("a b".into())]);
    assert_eq!(paths[1].segments, vec![Segment::Key("c\"d".into()), Segment::Key("e".into())]);
    assert_eq!(paths[1].display, r#"['c"d'].e"#);
}

#[test]
fn commas_inside_brackets_and_quotes_stay_literal() {
    let paths = parse_paths(" .a , [\"x,y\"] , ['p,q'].r ").unwrap();
    assert_eq!(paths.len(), 3);
    assert_eq!(paths[0].display, ".a");
    assert_eq!(paths[1].segments, vec![Segment::Key("x,y".into())]);
    assert_eq!(paths[2].segments, vec![Segment::Key("p,q".into()), Segment::Key("r".into())]);
}

#[test]
fn has_iter_and_leaf_name() {
    let p = parse_paths(".a[0][].b[2]").unwrap().pop().unwrap();
    assert!(p.has_iter());
    assert_eq!(p.leaf_name(), Some("b"));
    let p = parse_paths("[0]").unwrap().pop().unwrap();
    assert!(!p.has_iter());
    assert_eq!(p.leaf_name(), None);
}

#[test]
fn index_paths_keep_one_element() {
    let out = run(&req(r#"{"a":[10,20,30]}"#, ".a[2]")).unwrap();
    assert_eq!(out, r#"{"a":[30]}"#);
}

#[test]
fn flat_single_values_and_empty_iterations() {
    let r = Request { flat: true, ..req(r#"{"a":{"b":1},"c":[]}"#, ".a.b,.c[]") };
    assert_eq!(run(&r).unwrap(), r#"{"b":1,"c":[]}"#);
}

#[test]
fn extensions_name_formats() {
    assert_eq!(format_from_extension("conf.TOML"), Some(InputFormat::Toml));
    assert_eq!(format_from_extension("dir/a.yml"), Some(InputFormat::Yaml));
    assert_eq!(format_from_extension("x.jsonl"), Some(InputFormat::Ndjson));
    assert_eq!(format_from_extension("x.json"), Some(InputFormat::Json));
    assert_eq!(format_from_extension("x.txt"), None);
    assert_eq!(format_from_extension(".json"), None);
    assert_eq!(format_from_extension("noext"), None);
}

#[test]
fn detection_prefers_json_then_toml_then_yaml() {
    assert_eq!(run(&req("[1]", ".[0]")).unwrap(), "[1]");
    assert_eq!(run(&req("x = \"y\"", ".x")).unwrap(), r#"{"x":"y"}"#);
    assert_eq!(run(&req("x: y", ".x")).unwrap(), r#"{"x":"y"}"#);
}

#[test]
fn detects_format_from_file_extension() {
    let from = format_from_extension("/tmp/dotpick-cli/conf.toml");
    assert_eq!(from, Some(InputFormat::Toml));
    let out = run(&Request {
        from,
        to: Some(OutputFormat::Raw),
        ..req("name = \"web\"\nreplicas = 3\n", ".replicas")
    })
    .unwrap();
    assert_eq!(out, "3");
}

#[test]
fn steps_after_each_reader_and_writer() {
    assert_eq!(detect_from(true, true), InputFormat::Json);
    assert_eq!(detect_from(true, false), InputFormat::Json);
    assert_eq!(detect_from(false, true), InputFormat::Toml);
    assert_eq!(detect_from(false, false), InputFormat::Yaml);

    assert_eq!(format_for_ext("YmL"), Some(InputFormat::Yaml));
    assert_eq!(format_for_ext("NDJSON"), Some(InputFormat::Ndjson));
    assert_eq!(format_for_ext("txt"), None);

    let one = single_record(Ok(Node::Bool(true)), "json").unwrap();
    assert_eq!(one.len(), 1);
    assert!(matches!(one[0], Node::Bool(true)));
    assert_eq!(
        single_record(Err("eof".to_string()), "yaml").unwrap_err(),
        DotpickError::Parse { format: "yaml".into(), message: "eof".into() }
    );

    assert!(matches!(ndjson_record(Ok(Node::Null), 7), Ok(Node::Null)));
    assert_eq!(
        ndjson_record(Err("bad".to_string()), 3).unwrap_err(),
        DotpickError::Parse { format: "ndjson".into(), message: "line 3: bad".into() }
    );

    assert_eq!(finish_text(Ok("a: 1\n\n".to_string()), "yaml").unwrap(), "a: 1");
    assert_eq!(
        finish_text(Err("x".to_string()), "toml").unwrap_err(),
        DotpickError::Serialize { format: "toml".into(), message: "x".into() }
    );

    assert_eq!(join_text(&vec!["a".to_string(), String::new(), "b".to_string()]), "a\n\nb");
    assert_eq!(join_text(&Vec::new()), "");
}

#[test]
fn readers_give_object_keys_in_ascending_order() {
    for (text, format) in [
        ("{\"b\":1,\"a\":{\"z\":1,\"y\":2},\"B\":0}", InputFormat::Json),
        ("b: 1\na:\n  z: 1\n  y: 2\nB: 0\n", InputFormat::Yaml),
        ("b = 1\nB = 0\n[a]\nz = 1\ny = 2\n", InputFormat::Toml),
    ] {
        let records = parse(text, Some(format)).unwrap();
        let Node::Object(entries) = &records[0] else { panic!("{format:?}") };
        let keys: Vec<&str> = entries.iter().map(|(k, _)| k.as_str()).collect();
        assert_eq!(keys, vec!["B", "a", "b"], "{format:?}");
        let Node::Object(inner) = &entries[1].1 else { panic!("{format:?}") };
        let keys: Vec<&str> = inner.iter().map(|(k, _)| k.as_str()).collect();
        assert_eq!(keys, vec!["y", "z"], "{format:?}");
    }
}

#[test]
fn extension_is_what_follows_the_last_dot_of_the_file_name() {
    assert_eq!(format_from_extension("data.JSON"), Some(InputFormat::Json));
    assert_eq!(format_from_extension("dir/sub/a.b.yml"), Some(InputFormat::Yaml));
    assert_eq!(format_from_extension("conf/x.toml"), Some(InputFormat::Toml));
    assert_eq!(format_from_extension("dir.json/readme"), None);
    assert_eq!(format_from_extension(".json"), None);
    assert_eq!(format_from_extension("..json"), Some(InputFormat::Json));
    assert_eq!(format_from_extension("a.json."), None);
}
