//! Every failure mode, its exit code and its message.

use dotpick::path::parse_paths;
use dotpick::{run, DotpickError, InputFormat, OutputFormat, Request};

fn req(input: &str, paths: &str) -> Request {
    Request {
        input: input.to_string(),
        from: None,
        paths: paths.to_string(),
        flat: false,
        to: None,
        allow_missing: false,
        pretty: false,
    }
}

#[test]
fn exit_codes_follow_the_error_kind() {
    let cases = vec![
        (DotpickError::Parse { format: "json".into(), message: "m".into() }, 2, "parse"),
        (DotpickError::Serialize { format: "toml".into(), message: "m".into() }, 2, "serialize"),
        (DotpickError::PathNotFound { path: ".a".into(), hint: None }, 1, "path_not_found"),
        (
            DotpickError::TypeMismatch {
                path: ".a".into(),
                expected: "an object".into(),
                found: "a number".into(),
            },
            1,
            "type_mismatch",
        ),
        (DotpickError::PathSyntax { path: ".".into(), message: "m".into() }, 3, "path_syntax"),
        (DotpickError::NameCollision { name: "n".into() }, 3, "name_collision"),
        (DotpickError::RawNonScalar { path: ".a".into(), found: "an array".into() }, 3, "raw_non_scalar"),
    ];
    for (err, code, kind) in cases {
        assert_eq!(err.exit_code(), code);
        assert_eq!(err.kind(), kind);
    }
}

#[test]
fn messages_match_the_documented_wording() {
    let e = DotpickError::PathNotFound { path: ".a.b".into(), hint: Some("bb".into()) };
    assert_eq!(e.message(), "path .a.b not found; nearest existing: bb");
    let e = DotpickError::PathNotFound { path: ".a.b".into(), hint: None };
    assert_eq!(e.message(), "path .a.b not found");
    let e = DotpickError::TypeMismatch {
        path: ".a.b".into(),
        expected: "an object".into(),
        found: "a number".into(),
    };
    assert_eq!(e.message(), "path .a.b: expected an object but found a number");
    let e = DotpickError::PathSyntax { path: "a\"b".into(), message: "bad".into() };
    assert_eq!(e.message(), "invalid dotpath \"a\\\"b\": bad");
    let e = DotpickError::NameCollision { name: "n".into() };
    assert_eq!(
        e.message(),
        "flat output has a name collision on \"n\"; use the default structured output or rename with a quoted path"
    );
    let e = DotpickError::RawNonScalar { path: ".a".into(), found: "an array".into() };
    assert_eq!(e.message(), "raw output requires scalar values, but .a is an array; use --to json");
    let e = DotpickError::Parse { format: "yaml".into(), message: "oops".into() };
    assert_eq!(e.message(), "could not parse input as yaml: oops");
    let e = DotpickError::Serialize { format: "toml".into(), message: "oops".into() };
    assert_eq!(e.message(), "cannot serialize result as toml: oops");
}

#[test]
fn missing_index_hint_counts_the_elements() {
    let err = run(&req(r#"{"a":[1,2]}"#, ".a[5]")).unwrap_err();
    assert_eq!(
        err,
        DotpickError::PathNotFound {
            path: ".a[5]".into(),
            hint: Some("array has 2 element(s)".into())
        }
    );
}

#[test]
fn no_hint_when_every_key_is_far_away() {
    let err = run(&req(r#"{"alpha":1,"beta":2}"#, ".zzzzzzzz")).unwrap_err();
    assert_eq!(err, DotpickError::PathNotFound { path: ".zzzzzzzz".into(), hint: None });
}

#[test]
fn hint_prefers_the_closest_key_and_the_first_on_ties() {
    // "nme" is one edit from "name" and two from "time"; "ab" ties between "aa" and "bb",
    // and the first key in sorted order wins.
    let err = run(&req(r#"{"time":1,"name":2}"#, ".nme")).unwrap_err();
    assert_eq!(err, DotpickError::PathNotFound { path: ".nme".into(), hint: Some("name".into()) });
    let err = run(&req(r#"{"bb":1,"aa":2}"#, ".ab")).unwrap_err();
    assert_eq!(err, DotpickError::PathNotFound { path: ".ab".into(), hint: Some("aa".into()) });
}

#[test]
fn type_mismatch_names_both_kinds() {
    let err = run(&req(r#"{"a":[1]}"#, ".a.b")).unwrap_err();
    assert_eq!(
        err,
        DotpickError::TypeMismatch {
            path: ".a.b".into(),
            expected: "an object".into(),
            found: "an array".into()
        }
    );
    let err = run(&req(r#"{"a":"s"}"#, ".a[]")).unwrap_err();
    assert_eq!(
        err,
        DotpickError::TypeMismatch {
            path: ".a[]".into(),
            expected: "an array".into(),
            found: "a string".into()
        }
    );
}

#[test]
fn path_syntax_errors_carry_their_message() {
    let cases = vec![
        ("", "", "no paths given"),
        ("   ", "   ", "no paths given"),
        (".a, ,.b", "", "empty path"),
        (".a.", ".a.", "expected a key after '.'"),
        (".a[", ".a[", "expected an index, '[]' or a quoted key"),
        (".a[x]", ".a[x]", "expected an index, '[]' or a quoted key"),
        (".a[12", ".a[12", "expected ']' after index"),
        (".a[99999999999999999999999]", ".a[99999999999999999999999]", "index is too large"),
        (".a[\"k]", ".a[\"k]", "unterminated quoted key"),
        (".a[\"k\"x", ".a[\"k\"x", "expected ']' after quoted key"),
        (".a!", ".a!", "unexpected character '!'"),
    ];
    for (raw, path, message) in cases {
        let err = parse_paths(raw).unwrap_err();
        assert_eq!(
            err,
            DotpickError::PathSyntax { path: path.into(), message: message.into() },
            "input {raw:?}"
        );
        assert_eq!(err.exit_code(), 3);
    }
}

#[test]
fn flat_root_path_has_no_name() {
    let r = Request { flat: true, ..req(r#"{"a":1}"#, ".") };
    assert_eq!(
        run(&r).unwrap_err(),
        DotpickError::PathSyntax {
            path: ".".into(),
            message: "--flat needs a named field, but this path has no key".into()
        }
    );
}

#[test]
fn raw_non_scalar_names_the_path_and_kind() {
    let r = Request { to: Some(OutputFormat::Raw), ..req(r#"{"a":{"b":1},"c":2}"#, ".c,.a") };
    assert_eq!(
        run(&r).unwrap_err(),
        DotpickError::RawNonScalar { path: ".a".into(), found: "an object".into() }
    );
}

#[test]
fn toml_root_must_be_a_table() {
    let r = Request { to: Some(OutputFormat::Toml), ..req("[1,2]", ".") };
    assert_eq!(
        run(&r).unwrap_err(),
        DotpickError::Serialize {
            format: "toml".into(),
            message: "TOML root must be a table, but the result is an array".into()
        }
    );
}

#[test]
fn toml_cannot_hold_null() {
    let r = Request { to: Some(OutputFormat::Toml), ..req(r#"{"a":null}"#, ".") };
    assert!(matches!(run(&r).unwrap_err(), DotpickError::Serialize { format, .. } if format == "toml"));
}

#[test]
fn malformed_ndjson_line_is_numbered() {
    let r = Request { from: Some(InputFormat::Ndjson), ..req("{\"a\":1}\n\n{oops\n", ".a") };
    match run(&r).unwrap_err() {
        DotpickError::Parse { format, message } => {
            assert_eq!(format, "ndjson");
            assert!(message.starts_with("line 3: "), "{message}");
        }
        other => panic!("unexpected {other:?}"),
    }
}

#[test]
fn malformed_toml_and_yaml_are_parse_errors() {
    let r = Request { from: Some(InputFormat::Toml), ..req("a = = 1", ".a") };
    assert!(matches!(run(&r).unwrap_err(), DotpickError::Parse { format, .. } if format == "toml"));
    let r = Request { from: Some(InputFormat::Yaml), ..req("a: [1, 2", ".a") };
    assert!(matches!(run(&r).unwrap_err(), DotpickError::Parse { format, .. } if format == "yaml"));
}

#[test]
fn missing_path_emits_structured_error_and_exits_1() {
    let err = run(&req(r#"{"a":1}"#, ".nope")).unwrap_err();
    assert_eq!(err.exit_code(), 1);
    assert_eq!(err.kind(), "path_not_found");
}
