//! Dotpath grammar tests.

use dotpick::path::{parse_paths, Segment};

fn segs(raw: &str) -> Vec<Segment> {
    parse_paths(raw).unwrap().pop().unwrap().segments
}

#[test]
fn parses_nested_keys() {
    assert_eq!(
        segs(".a.b.c"),
        vec![
            Segment::Key("a".into()),
            Segment::Key("b".into()),
            Segment::Key("c".into())
        ]
    );
}

#[test]
fn leading_dot_is_optional() {
    assert_eq!(segs("a.b"), segs(".a.b"));
}

#[test]
fn parses_index_iter_and_quoted_keys() {
    assert_eq!(
        segs(r#".a[0].b[]["c.d"]"#),
        vec![
            Segment::Key("a".into()),
            Segment::Index(0),
            Segment::Key("b".into()),
            Segment::Iter,
            Segment::Key("c.d".into()),
        ]
    );
}

#[test]
fn root_is_empty_segments() {
    assert!(segs(".").is_empty());
}

#[test]
fn splits_top_level_commas_only() {
    let paths = parse_paths(r#".a,["x,y"].z"#).unwrap();
    assert_eq!(paths.len(), 2);
    assert_eq!(paths[1].segments[0], Segment::Key("x,y".into()));
}

#[test]
fn leaf_name_is_last_key() {
    assert_eq!(parse_paths(".a.b[]").unwrap()[0].leaf_name(), Some("b"));
}

#[test]
fn rejects_trailing_dot() {
    assert!(parse_paths(".a.").is_err());
}

#[test]
fn rejects_empty_path_in_list() {
    assert!(parse_paths(".a,,.b").is_err());
}

#[test]
fn rejects_unterminated_bracket() {
    assert!(parse_paths(".a[0").is_err());
    assert!(parse_paths(r#".a["k]"#).is_err());
}
