//! Serialization of projected documents to the chosen output format.
//!
//! Output never has a trailing newline; the CLI adds one. Object keys are
//! emitted in sorted order for stable, diff-friendly output.

use crate::error::{DotpickError, Failure};
use crate::path::{paths_view, Path, PathModel};
use crate::project::{no_match, no_match_error, select_all, select_all_spec, tagged_view};
use crate::text::{
    is_ws, lemma_trim_end_ends_in_text, owned, push_char, string_of, to_chars, trim_end,
    trim_end_string,
};
use crate::value::{entry_models, is_scalar, kind_name, model, models, scalar, value_type_name, Json, Node};
use crate::OutputFormat;
use vstd::prelude::*;

verus! {

/// The compact JSON text of a document (`serde_json::to_string`).
pub uninterp spec fn json_text(v: Json) -> Seq<char>;

/// The indented JSON text of a document (`serde_json::to_string_pretty`).
pub uninterp spec fn json_pretty_text(v: Json) -> Seq<char>;

/// What `serde_norway::to_string` makes of a document: its YAML text, or the
/// error's message.
pub uninterp spec fn yaml_write(v: Json) -> Result<Seq<char>, Seq<char>>;

/// What `toml::to_string` makes of a document: its TOML text, or the error's
/// message.
pub uninterp spec fn toml_write(v: Json) -> Result<Seq<char>, Seq<char>>;

pub open spec fn written_view(r: Result<String, String>) -> Result<Seq<char>, Seq<char>> {
    match r {
        Ok(t) => Ok(t@),
        Err(m) => Err(m@),
    }
}

/// Conversion of a document into a `serde_json::Value`, variant by variant; a
/// number's text is read back with `serde_json::Number`'s `FromStr`.
#[verifier::external_body]
fn to_serde(v: &Node) -> serde_json::Value {
    match v {
        Node::Null => serde_json::Value::Null,
        Node::Bool(b) => serde_json::Value::Bool(*b),
        Node::Number(n) => n.parse::<serde_json::Number>().map(serde_json::Value::Number).unwrap_or(
            serde_json::Value::Null,
        ),
        Node::String(s) => serde_json::Value::String(s.clone()),
        Node::Array(a) => serde_json::Value::Array(a.iter().map(to_serde).collect()),
        Node::Object(es) => serde_json::Value::Object(
            es.iter().map(|(k, x)| (k.clone(), to_serde(x))).collect(),
        ),
    }
}

/// `serde_json::to_string` on the document. Serializing a `serde_json::Value`
/// into memory cannot fail (its maps have string keys), so the text is
/// returned directly; it is named by `json_text`, a function of the document
/// alone, and the JSON syntax is not restated. The compact formatter writes
/// no whitespace between tokens and escapes a line feed inside a string as
/// `\n`, so the text is never empty and holds no line feed.
#[verifier::external_body]
fn json_compact(v: &Node) -> (r: String)
    ensures
        r@ == json_text(v@),
        r@.len() > 0,
        forall|i: int| 0 <= i < r@.len() ==> r@[i] != '\n',
{
    serde_json::to_string(&to_serde(v)).unwrap_or_default()
}

/// `serde_json::to_string_pretty` on the document, named by
/// `json_pretty_text`; as for `json_compact`, it cannot fail. The pretty
/// formatter puts line breaks only before a member or a closing bracket, so
/// the text ends in the last token, never in a line feed.
#[verifier::external_body]
pub(crate) fn json_pretty(v: &Node) -> (r: String)
    ensures
        r@ == json_pretty_text(v@),
        r@.len() > 0,
        r@.last() != '\n',
{
    serde_json::to_string_pretty(&to_serde(v)).unwrap_or_default()
}

/// `serde_norway::to_string` on the document, named by `yaml_write`.
#[verifier::external_body]
fn yaml_text(v: &Node) -> (r: Result<String, String>)
    ensures
        written_view(r) == yaml_write(v@),
{
    serde_norway::to_string(&to_serde(v)).map_err(|e| e.to_string())
}

/// `toml::to_string` on the document, named by `toml_write`.
#[verifier::external_body]
fn toml_text(v: &Node) -> (r: Result<String, String>)
    ensures
        written_view(r) == toml_write(v@),
{
    toml::to_string(&to_serde(v)).map_err(|e| e.to_string())
}

// ---------------------------------------------------------------------------
// Specification
// ---------------------------------------------------------------------------

/// A single value: the lone document, or the documents wrapped in an array.
pub open spec fn collapse_spec(docs: Seq<Json>) -> Json {
    if docs.len() == 1 {
        docs[0]
    } else {
        Json::Array(docs)
    }
}

pub open spec fn is_document_format(format: OutputFormat) -> bool {
    format is Json || format is Yaml || format is Toml
}

/// A writer's text without its trailing whitespace, or its error as a
/// serialization failure in `format`.
pub open spec fn finished(written: Result<Seq<char>, Seq<char>>, format: Seq<char>) -> Result<
    Seq<char>,
    Failure,
> {
    match written {
        Ok(t) => Ok(trim_end(t)),
        Err(m) => Err(Failure::Serialize { format, message: m }),
    }
}

/// The rendering of projected documents in a document-shaped format.
pub open spec fn render_spec(docs: Seq<Json>, format: OutputFormat, pretty: bool) -> Result<
    Seq<char>,
    Failure,
> {
    let value = collapse_spec(docs);
    match format {
        OutputFormat::Json => Ok(
            if pretty {
                json_pretty_text(value)
            } else {
                json_text(value)
            },
        ),
        OutputFormat::Yaml => finished(yaml_write(value), "yaml"@),
        _ => if !(value is Object) {
            Err(
                Failure::Serialize {
                    format: "toml"@,
                    message: "TOML root must be a table, but the result is "@ + kind_name(value),
                },
            )
        } else {
            finished(toml_write(value), "toml"@)
        },
    }
}

/// Lines joined with `\n` (no trailing newline).
pub open spec fn join_lines(lines: Seq<Seq<char>>) -> Seq<char>
    decreases lines.len(),
{
    if lines.len() == 0 {
        Seq::empty()
    } else if lines.len() == 1 {
        lines[0]
    } else {
        join_lines(lines.drop_last()) + seq!['\n'] + lines.last()
    }
}

/// The compact JSON line of each selected value.
pub open spec fn ndjson_lines_of(pairs: Seq<(Seq<char>, Json)>) -> Seq<Seq<char>> {
    pairs.map_values(|p: (Seq<char>, Json)| json_text(p.1))
}

/// The NDJSON lines of every record, in record order.
pub open spec fn ndjson_lines(records: Seq<Json>, paths: Seq<PathModel>, allow: bool) -> Result<
    Seq<Seq<char>>,
    Failure,
>
    decreases records.len(),
{
    if records.len() == 0 {
        Ok(Seq::empty())
    } else {
        match ndjson_lines(records.drop_last(), paths, allow) {
            Err(e) => Err(e),
            Ok(ls) => match select_all_spec(records.last(), paths, allow) {
                Err(e) => Err(e),
                Ok(pairs) => Ok(ls + ndjson_lines_of(pairs)),
            },
        }
    }
}

/// The raw text of a scalar: a string unquoted, otherwise its JSON text.
pub open spec fn raw_text(v: Json) -> Seq<char> {
    match v {
        Json::Str(s) => s,
        Json::Number(t) => t,
        Json::Bool(b) => if b {
            "true"@
        } else {
            "false"@
        },
        _ => "null"@,
    }
}

/// The raw lines of selected values; the first non-scalar is an error.
pub open spec fn raw_lines_of(pairs: Seq<(Seq<char>, Json)>) -> Result<Seq<Seq<char>>, Failure>
    decreases pairs.len(),
{
    if pairs.len() == 0 {
        Ok(Seq::empty())
    } else {
        match raw_lines_of(pairs.drop_last()) {
            Err(e) => Err(e),
            Ok(ls) => {
                let (path, v) = pairs.last();
                if !scalar(v) {
                    Err(Failure::RawNonScalar { path, found: kind_name(v) })
                } else {
                    Ok(ls.push(raw_text(v)))
                }
            },
        }
    }
}

/// The raw lines of every record, in record order.
pub open spec fn raw_lines(records: Seq<Json>, paths: Seq<PathModel>, allow: bool) -> Result<
    Seq<Seq<char>>,
    Failure,
>
    decreases records.len(),
{
    if records.len() == 0 {
        Ok(Seq::empty())
    } else {
        match raw_lines(records.drop_last(), paths, allow) {
            Err(e) => Err(e),
            Ok(ls) => match select_all_spec(records.last(), paths, allow) {
                Err(e) => Err(e),
                Ok(pairs) => match raw_lines_of(pairs) {
                    Err(e) => Err(e),
                    Ok(more) => Ok(ls + more),
                },
            },
        }
    }
}

/// Text without its trailing line feeds (other characters, a carriage
/// return among them, stay).
pub open spec fn trim_newlines(s: Seq<char>) -> Seq<char>
    decreases s.len(),
{
    if s.len() > 0 && s.last() == '\n' {
        trim_newlines(s.drop_last())
    } else {
        s
    }
}

/// Text that does not end in a line feed.
pub open spec fn no_trailing_newline(s: Seq<char>) -> bool {
    s.len() == 0 || s.last() != '\n'
}

/// A line of NDJSON output: not empty, and free of line feeds.
pub open spec fn line_ok(l: Seq<char>) -> bool {
    l.len() > 0 && forall|i: int| 0 <= i < l.len() ==> l[i] != '\n'
}

/// NDJSON output: one line per selected value, or no match when nothing is
/// selected.
pub open spec fn ndjson_output(records: Seq<Json>, paths: Seq<PathModel>, allow: bool) -> Result<
    Seq<char>,
    Failure,
> {
    match ndjson_lines(records, paths, allow) {
        Err(e) => Err(e),
        Ok(ls) => if ls.len() == 0 {
            Err(no_match(paths))
        } else {
            Ok(join_lines(ls))
        },
    }
}

/// Raw output: one line per selected value, without trailing line feeds,
/// or no match when nothing is selected.
pub open spec fn raw_output(records: Seq<Json>, paths: Seq<PathModel>, allow: bool) -> Result<
    Seq<char>,
    Failure,
> {
    match raw_lines(records, paths, allow) {
        Err(e) => Err(e),
        Ok(ls) => if ls.len() == 0 {
            Err(no_match(paths))
        } else {
            Ok(trim_newlines(join_lines(ls)))
        },
    }
}

pub open spec fn text_view(r: Result<String, DotpickError>) -> Result<Seq<char>, Failure> {
    match r {
        Ok(t) => Ok(t@),
        Err(e) => Err(e@),
    }
}

// ---------------------------------------------------------------------------
// Implementation
// ---------------------------------------------------------------------------

/// A single value: the lone document, or the documents wrapped in an array.
fn collapse(docs: &Vec<Node>) -> (r: Node)
    ensures
        r@ == collapse_spec(models(docs@)),
{
    if docs.len() == 1 {
        docs[0].deep_copy()
    } else {
        let mut all: Vec<Node> = Vec::new();
        let mut i: usize = 0;
        while i < docs.len()
            invariant
                i <= docs@.len(),
                all@.len() == i,
                forall|j: int| 0 <= j < i ==> model(#[trigger] all@[j]) == model(docs@[j]),
            decreases docs.len() - i,
        {
            all.push(docs[i].deep_copy());
            i += 1;
        }
        assert(models(all@) =~= models(docs@));
        Node::Array(all)
    }
}

fn render_json(docs: &Vec<Node>, pretty: bool) -> (r: Result<String, DotpickError>)
    ensures
        text_view(r) == render_spec(models(docs@), OutputFormat::Json, pretty),
        r matches Ok(t) ==> no_trailing_newline(t@),
{
    let value = collapse(docs);
    if pretty {
        Ok(json_pretty(&value))
    } else {
        Ok(json_compact(&value))
    }
}

/// The output text from what a writer made of the document: the text
/// without its trailing whitespace, or a serialization error in `format`.
pub fn finish_text(written: Result<String, String>, format: &str) -> (r: Result<
    String,
    DotpickError,
>)
    ensures
        text_view(r) == finished(written_view(written), format@),
        r matches Ok(t) ==> no_trailing_newline(t@),
{
    match written {
        Ok(t) => {
            proof {
                lemma_trim_end_ends_in_text(t@);
                assert(is_ws('\n')) by {
                    assert(('\n' as u32) == 10);
                }
            }
            Ok(trim_end_string(t.as_str()))
        },
        Err(m) => Err(DotpickError::Serialize { format: owned(format), message: m }),
    }
}

fn render_yaml(docs: &Vec<Node>) -> (r: Result<String, DotpickError>)
    ensures
        text_view(r) == render_spec(models(docs@), OutputFormat::Yaml, false),
        r matches Ok(t) ==> no_trailing_newline(t@),
{
    let value = collapse(docs);
    finish_text(yaml_text(&value), "yaml")
}

fn render_toml(docs: &Vec<Node>) -> (r: Result<String, DotpickError>)
    ensures
        text_view(r) == render_spec(models(docs@), OutputFormat::Toml, false),
        r matches Ok(t) ==> no_trailing_newline(t@),
{
    let value = collapse(docs);
    let is_object = match &value {
        Node::Object(_) => true,
        _ => false,
    };
    if !is_object {
        let mut message = owned("TOML root must be a table, but the result is ");
        message.append(value_type_name(&value));
        return Err(DotpickError::Serialize { format: owned("toml"), message });
    }
    finish_text(toml_text(&value), "toml")
}

/// Render projected documents (one per input record) in `format`.
///
/// Only the document-shaped formats (`json`, `yaml`, `toml`) go through here;
/// the streaming formats (`ndjson`, `raw`) are rendered from the selected
/// values via [`render_ndjson`] and [`render_raw`].
pub fn render(docs: &Vec<Node>, format: OutputFormat, pretty: bool) -> (r: Result<
    String,
    DotpickError,
>)
    requires
        is_document_format(format),
    ensures
        text_view(r) == render_spec(models(docs@), format, pretty),
        r matches Ok(t) ==> no_trailing_newline(t@),
{
    match format {
        OutputFormat::Json => render_json(docs, pretty),
        OutputFormat::Yaml => render_yaml(docs),
        _ => render_toml(docs),
    }
}

/// Appends `line` to `out`, separated by `\n` from the lines before it.
fn push_line(out: &mut String, started: bool, line: &str, lines: Ghost<Seq<Seq<char>>>)
    requires
        started == (lines@.len() > 0),
        old(out)@ == join_lines(lines@),
    ensures
        final(out)@ == join_lines(lines@.push(line@)),
{
    let ghost all = lines@.push(line@);
    assert(all.drop_last() =~= lines@);
    if started {
        push_char(out, '\n');
    } else {
        assert(old(out)@ =~= Seq::<char>::empty());
    }
    out.append(line);
    assert(out@ =~= join_lines(all));
}

proof fn lemma_concat_take_push(a: Seq<Seq<char>>, b: Seq<Seq<char>>, k: int)
    requires
        0 <= k <= b.len(),
    ensures
        (a + b.take(k)).len() == a.len() + k,
        k < b.len() ==> (a + b.take(k + 1)) == (a + b.take(k)).push(b[k]),
{
    if k < b.len() {
        assert((a + b.take(k + 1)) =~= (a + b.take(k)).push(b[k]));
    }
}

proof fn lemma_ndjson_lines_error(records: Seq<Json>, paths: Seq<PathModel>, allow: bool, k: int)
    requires
        0 <= k <= records.len(),
        ndjson_lines(records.take(k), paths, allow) is Err,
    ensures
        ndjson_lines(records, paths, allow) == ndjson_lines(records.take(k), paths, allow),
    decreases records.len() - k,
{
    if k < records.len() {
        assert(records.take(k + 1).drop_last() =~= records.take(k));
        lemma_ndjson_lines_error(records, paths, allow, k + 1);
    } else {
        assert(records.take(k) =~= records);
    }
}

proof fn lemma_raw_lines_error(records: Seq<Json>, paths: Seq<PathModel>, allow: bool, k: int)
    requires
        0 <= k <= records.len(),
        raw_lines(records.take(k), paths, allow) is Err,
    ensures
        raw_lines(records, paths, allow) == raw_lines(records.take(k), paths, allow),
    decreases records.len() - k,
{
    if k < records.len() {
        assert(records.take(k + 1).drop_last() =~= records.take(k));
        lemma_raw_lines_error(records, paths, allow, k + 1);
    } else {
        assert(records.take(k) =~= records);
    }
}

proof fn lemma_raw_lines_of_error(pairs: Seq<(Seq<char>, Json)>, k: int)
    requires
        0 <= k <= pairs.len(),
        raw_lines_of(pairs.take(k)) is Err,
    ensures
        raw_lines_of(pairs) == raw_lines_of(pairs.take(k)),
    decreases pairs.len() - k,
{
    if k < pairs.len() {
        assert(pairs.take(k + 1).drop_last() =~= pairs.take(k));
        lemma_raw_lines_of_error(pairs, k + 1);
    } else {
        assert(pairs.take(k) =~= pairs);
    }
}

fn compact(v: &Node) -> (r: Result<String, DotpickError>)
    ensures
        r matches Ok(t) && t@ == json_text(v@) && line_ok(t@),
{
    Ok(json_compact(v))
}

/// The views of a list of lines.
pub open spec fn lines_view(lines: Seq<String>) -> Seq<Seq<char>> {
    lines.map_values(|l: String| l@)
}

/// Lines joined with `\n`, without a trailing newline.
pub fn join_text(lines: &Vec<String>) -> (r: String)
    ensures
        r@ == join_lines(lines_view(lines@)),
{
    let ghost lv = lines_view(lines@);
    let mut out = String::new();
    let mut i: usize = 0;
    assert(lv.take(0) =~= Seq::<Seq<char>>::empty());
    while i < lines.len()
        invariant
            i <= lines@.len(),
            lv == lines_view(lines@),
            out@ == join_lines(lv.take(i as int)),
        decreases lines.len() - i,
    {
        push_line(&mut out, i > 0, lines[i].as_str(), Ghost(lv.take(i as int)));
        assert(lv.take(i as int).push(lines@[i as int]@) =~= lv.take(i + 1));
        i += 1;
    }
    assert(lv.take(lines@.len() as int) =~= lv);
    out
}

/// Appends `line` to `lines`.
fn push_text(lines: &mut Vec<String>, line: String)
    ensures
        lines_view(final(lines)@) == lines_view(old(lines)@).push(line@),
{
    let ghost before = lines_view(lines@);
    lines.push(line);
    assert(lines_view(lines@) =~= before.push(line@));
}

/// Joined lines end as the last line does.
proof fn lemma_join_last_line(ls: Seq<Seq<char>>)
    requires
        ls.len() > 0,
        forall|k: int| 0 <= k < ls.len() ==> line_ok(#[trigger] ls[k]),
    ensures
        no_trailing_newline(join_lines(ls)),
{
    let last = ls[ls.len() - 1];
    assert(line_ok(last));
    assert(last[last.len() - 1] != '\n');
    if ls.len() > 1 {
        let j = join_lines(ls);
        assert(j == join_lines(ls.drop_last()) + seq!['\n'] + ls.last());
        assert(j.last() == last[last.len() - 1]);
    }
}

/// Text without its trailing line feeds.
fn trim_newlines_string(s: &str) -> (r: String)
    ensures
        r@ == trim_newlines(s@),
        no_trailing_newline(r@),
{
    let chars = to_chars(s);
    let mut j = chars.len();
    assert(s@.take(j as int) =~= s@);
    while j > 0 && chars[j - 1] == '\n'
        invariant
            j <= chars@.len(),
            chars@ == s@,
            trim_newlines(s@) == trim_newlines(s@.take(j as int)),
        decreases j,
    {
        assert(s@.take(j as int).drop_last() =~= s@.take(j - 1));
        j -= 1;
    }
    let r = string_of(&chars, 0, j);
    assert(r@ =~= s@.take(j as int));
    r
}

/// Render ndjson output: one compact JSON value per selected match, one per
/// line. `[]` in a path controls granularity (`.items[]` streams elements,
/// `.items[].name` streams names).
pub fn render_ndjson(records: &Vec<Node>, paths: &[Path], allow_missing: bool) -> (r: Result<
    String,
    DotpickError,
>)
    ensures
        text_view(r) == ndjson_output(models(records@), paths_view(paths@), allow_missing),
        r matches Ok(t) ==> no_trailing_newline(t@),
        r is Ok ==> forall|k: int|
            0 <= k < ndjson_lines(models(records@), paths_view(paths@), allow_missing)->Ok_0.len()
                ==> line_ok(
                #[trigger] ndjson_lines(models(records@), paths_view(paths@), allow_missing)->Ok_0[k],
            ),
{
    let ghost rs = models(records@);
    let ghost pv = paths_view(paths@);
    let mut lines: Vec<String> = Vec::new();
    let mut i: usize = 0;
    assert(rs.take(0) =~= Seq::<Json>::empty());
    assert(lines_view(lines@) =~= Seq::<Seq<char>>::empty());
    while i < records.len()
        invariant
            i <= records@.len(),
            rs == models(records@),
            pv == paths_view(paths@),
            ndjson_lines(rs.take(i as int), pv, allow_missing) == Ok::<Seq<Seq<char>>, Failure>(
                lines_view(lines@),
            ),
            forall|k: int| 0 <= k < lines@.len() ==> line_ok(#[trigger] lines_view(lines@)[k]),
        decreases records.len() - i,
    {
        assert(rs.take(i + 1).drop_last() =~= rs.take(i as int));
        assert(rs.take(i + 1).last() == records@[i as int]@);
        let pairs = match select_all(&records[i], paths, allow_missing) {
            Err(e) => {
                proof {
                    lemma_ndjson_lines_error(rs, pv, allow_missing, i + 1);
                }
                return Err(e);
            },
            Ok(pairs) => pairs,
        };
        let ghost pm = entry_models(pairs@);
        let ghost more = ndjson_lines_of(pm);
        let ghost base = lines_view(lines@);
        let mut j: usize = 0;
        assert(base + more.take(0) =~= base);
        while j < pairs.len()
            invariant
                j <= pairs@.len(),
                i < records@.len(),
                rs == models(records@),
                pv == paths_view(paths@),
                rs.take(i + 1).drop_last() == rs.take(i as int),
                ndjson_lines(rs.take(i as int), pv, allow_missing) == Ok::<Seq<Seq<char>>, Failure>(
                    base,
                ),
                select_all_spec(rs.take(i + 1).last(), pv, allow_missing) == Ok::<
                    Seq<(Seq<char>, Json)>,
                    Failure,
                >(pm),
                pm == entry_models(pairs@),
                more == ndjson_lines_of(pm),
                lines_view(lines@) == base + more.take(j as int),
                forall|k: int| 0 <= k < lines@.len() ==> line_ok(#[trigger] lines_view(lines@)[k]),
            decreases pairs.len() - j,
        {
            let line = match compact(&pairs[j].1) {
                Ok(t) => t,
                Err(e) => {
                    return Err(e);
                },
            };
            assert(more[j as int] == json_text(pm[j as int].1));
            assert(pm[j as int].1 == model(pairs@[j as int].1));
            proof {
                lemma_concat_take_push(base, more, j as int);
            }
            let ghost old_lines = lines_view(lines@);
            let ghost new_line = line@;
            push_text(&mut lines, line);
            assert(lines_view(lines@) == old_lines.push(new_line));
            assert(lines_view(lines@).len() == lines@.len());
            assert forall|k: int| 0 <= k < lines@.len() implies line_ok(
                #[trigger] lines_view(lines@)[k],
            ) by {
                if k < old_lines.len() {
                    assert(lines_view(lines@)[k] == old_lines[k]);
                } else {
                    assert(lines_view(lines@)[k] == new_line);
                }
            }
            j += 1;
        }
        proof {
            assert(more.take(pairs@.len() as int) =~= more);
        }
        i += 1;
    }
    assert(rs.take(records@.len() as int) =~= rs);
    if lines.len() == 0 {
        return Err(no_match_error(paths));
    }
    proof {
        lemma_join_last_line(lines_view(lines@));
    }
    Ok(join_text(&lines))
}

fn scalar_to_raw(v: &Node) -> (r: String)
    requires
        scalar(v@),
    ensures
        r@ == raw_text(v@),
{
    match v {
        Node::String(s) => s.clone(),
        Node::Number(n) => n.clone(),
        Node::Bool(b) => if *b {
            owned("true")
        } else {
            owned("false")
        },
        _ => owned("null"),
    }
}

/// Render raw output: bare scalar values, one per line.
pub fn render_raw(records: &Vec<Node>, paths: &[Path], allow_missing: bool) -> (r: Result<
    String,
    DotpickError,
>)
    ensures
        text_view(r) == raw_output(models(records@), paths_view(paths@), allow_missing),
        r matches Ok(t) ==> no_trailing_newline(t@),
{
    let ghost rs = models(records@);
    let ghost pv = paths_view(paths@);
    let mut lines: Vec<String> = Vec::new();
    let mut i: usize = 0;
    assert(rs.take(0) =~= Seq::<Json>::empty());
    assert(lines_view(lines@) =~= Seq::<Seq<char>>::empty());
    while i < records.len()
        invariant
            i <= records@.len(),
            rs == models(records@),
            pv == paths_view(paths@),
            raw_lines(rs.take(i as int), pv, allow_missing) == Ok::<Seq<Seq<char>>, Failure>(
                lines_view(lines@),
            ),
        decreases records.len() - i,
    {
        assert(rs.take(i + 1).drop_last() =~= rs.take(i as int));
        assert(rs.take(i + 1).last() == records@[i as int]@);
        let pairs = match select_all(&records[i], paths, allow_missing) {
            Err(e) => {
                proof {
                    lemma_raw_lines_error(rs, pv, allow_missing, i + 1);
                }
                return Err(e);
            },
            Ok(pairs) => pairs,
        };
        let ghost pm = entry_models(pairs@);
        let ghost base = lines_view(lines@);
        let ghost mut more: Seq<Seq<char>> = Seq::empty();
        let mut j: usize = 0;
        assert(pm.take(0) =~= Seq::<(Seq<char>, Json)>::empty());
        assert(base + more =~= base);
        while j < pairs.len()
            invariant
                j <= pairs@.len(),
                i < records@.len(),
                rs == models(records@),
                pv == paths_view(paths@),
                rs.take(i + 1).drop_last() == rs.take(i as int),
                raw_lines(rs.take(i as int), pv, allow_missing) == Ok::<Seq<Seq<char>>, Failure>(
                    base,
                ),
                select_all_spec(rs.take(i + 1).last(), pv, allow_missing) == Ok::<
                    Seq<(Seq<char>, Json)>,
                    Failure,
                >(pm),
                pm == entry_models(pairs@),
                raw_lines_of(pm.take(j as int)) == Ok::<Seq<Seq<char>>, Failure>(more),
                lines_view(lines@) == base + more,
            decreases pairs.len() - j,
        {
            assert(pm.take(j + 1).drop_last() =~= pm.take(j as int));
            assert(pm.take(j + 1).last() == pm[j as int]);
            assert(pm[j as int] == (pairs@[j as int].0@, model(pairs@[j as int].1)));
            let (path, value) = (&pairs[j].0, &pairs[j].1);
            if !is_scalar(value) {
                proof {
                    lemma_raw_lines_of_error(pm, j + 1);
                    assert(raw_lines(rs.take(i + 1), pv, allow_missing) is Err);
                    lemma_raw_lines_error(rs, pv, allow_missing, i + 1);
                }
                return Err(
                    DotpickError::RawNonScalar {
                        path: path.clone(),
                        found: owned(value_type_name(value)),
                    },
                );
            }
            let line = scalar_to_raw(value);
            proof {
                more = more.push(line@);
            }
            push_text(&mut lines, line);
            assert(lines_view(lines@) =~= base + more);
            j += 1;
        }
        assert(pm.take(pairs@.len() as int) =~= pm);
        i += 1;
    }
    assert(rs.take(records@.len() as int) =~= rs);
    if lines.len() == 0 {
        return Err(no_match_error(paths));
    }
    let joined = join_text(&lines);
    Ok(trim_newlines_string(joined.as_str()))
}

} // verus!
