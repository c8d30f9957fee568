//! Input format detection and parsing into one or more JSON-shaped records.
//!
//! All formats are parsed into [`Node`], the universal in-memory model.
//! NDJSON yields one record per non-empty line; every other format yields a
//! single record.

use crate::error::{DotpickError, Failure};
use crate::text::{all_ws, decimal, is_blank, owned, push_decimal, string_of, to_chars};
use crate::value::{
    entry_models, find_key, insert_entry, insert_pos, insert_position, key_index, key_lt,
    lemma_insert_entry_lookup, lemma_insert_entry_sorted, lemma_insert_pos, lemma_key_index, lookup,
    models, sorted_json, sorted_keys,
    Json, Node,
};
use crate::InputFormat;
use vstd::prelude::*;

verus! {

#[verifier::external_type_specification]
#[verifier::external_body]
pub struct ExternalJsonValue(serde_json::Value);

#[verifier::external_type_specification]
#[verifier::external_body]
pub struct ExternalTomlValue(toml::Value);

/// What `serde_json::from_str::<serde_json::Value>` makes of a text: the
/// document, or the error's message.
pub uninterp spec fn json_read(text: Seq<char>) -> Result<Json, Seq<char>>;

/// What `serde_norway::from_str::<serde_json::Value>` makes of a text.
pub uninterp spec fn yaml_read(text: Seq<char>) -> Result<Json, Seq<char>>;

/// What `toml::from_str::<toml::Value>` makes of a text (see [`TomlModel`]).
pub uninterp spec fn toml_read(text: Seq<char>) -> Result<TomlModel, Seq<char>>;

/// Whether `toml::from_str::<serde_json::Value>` accepts a text.
pub uninterp spec fn toml_accepts(text: Seq<char>) -> bool;

pub open spec fn read_view(r: Result<Node, String>) -> Result<Json, Seq<char>> {
    match r {
        Ok(v) => Ok(v@),
        Err(m) => Err(m@),
    }
}

/// Conversion of a `serde_json::Value` into the document model, variant by
/// variant; a number keeps the text that `serde_json::Number`'s `Display` prints.
#[verifier::external_body]
fn from_serde(v: serde_json::Value) -> Node {
    match v {
        serde_json::Value::Null => Node::Null,
        serde_json::Value::Bool(b) => Node::Bool(b),
        serde_json::Value::Number(n) => Node::Number(n.to_string()),
        serde_json::Value::String(s) => Node::String(s),
        serde_json::Value::Array(a) => Node::Array(a.into_iter().map(from_serde).collect()),
        serde_json::Value::Object(m) => Node::Object(
            m.into_iter().map(|(k, x)| (k, from_serde(x))).collect(),
        ),
    }
}

/// A TOML value as read: an integer as its decimal text, a float as the
/// JSON number text it has (none when it is not finite), a datetime as its
/// text; arrays and tables of such values, tables in the reader's order.
pub enum TomlNode {
    String(String),
    Integer(String),
    Float(Option<String>),
    Boolean(bool),
    Datetime(String),
    Array(Vec<TomlNode>),
    Table(Vec<(String, TomlNode)>),
}

/// The mathematical value of a [`TomlNode`].
pub enum TomlModel {
    Str(Seq<char>),
    Integer(Seq<char>),
    Float(Option<Seq<char>>),
    Boolean(bool),
    Datetime(Seq<char>),
    Array(Seq<TomlModel>),
    Table(Seq<(Seq<char>, TomlModel)>),
}

pub open spec fn toml_model(t: TomlNode) -> TomlModel
    decreases t,
{
    match t {
        TomlNode::String(x) => TomlModel::Str(x@),
        TomlNode::Integer(x) => TomlModel::Integer(x@),
        TomlNode::Float(o) => TomlModel::Float(
            match o {
                Some(x) => Some(x@),
                None => None,
            },
        ),
        TomlNode::Boolean(b) => TomlModel::Boolean(b),
        TomlNode::Datetime(d) => TomlModel::Datetime(d@),
        TomlNode::Array(a) => TomlModel::Array(
            Seq::new(
                a@.len(),
                |i: int|
                    if 0 <= i < a@.len() {
                        toml_model(a@[i])
                    } else {
                        TomlModel::Boolean(false)
                    },
            ),
        ),
        TomlNode::Table(t) => TomlModel::Table(
            Seq::new(
                t@.len(),
                |i: int|
                    if 0 <= i < t@.len() {
                        (t@[i].0@, toml_model(t@[i].1))
                    } else {
                        (Seq::empty(), TomlModel::Boolean(false))
                    },
            ),
        ),
    }
}

impl View for TomlNode {
    type V = TomlModel;

    open spec fn view(&self) -> TomlModel {
        toml_model(*self)
    }
}

/// An entry put into an object whose keys are in order: a new key goes to
/// its place, a key already present takes the new value.
pub open spec fn put_entry(es: Seq<(Seq<char>, Json)>, e: (Seq<char>, Json)) -> Seq<
    (Seq<char>, Json),
> {
    match key_index(es, e.0) {
        Some(i) => es.update(i, e),
        None => insert_entry(es, e),
    }
}

/// The object of a table: its entries put one after another, each as its
/// document, into an empty object.
pub open spec fn put_table(es: Seq<(Seq<char>, TomlModel)>) -> Seq<(Seq<char>, Json)>
    decreases es,
{
    if es.len() == 0 {
        Seq::empty()
    } else {
        proof {
            assert(decreases_to!(es => es[es.len() - 1]));
        }
        put_entry(put_table(es.drop_last()), (es.last().0, toml_json(es.last().1)))
    }
}

/// The document that a TOML value stands for: a datetime becomes its RFC
/// 3339 text (JSON has no datetimes), a float its number, and a float that
/// is not finite `null`; a table becomes an object with its keys in order.
pub open spec fn toml_json(m: TomlModel) -> Json
    decreases m,
{
    match m {
        TomlModel::Str(x) => Json::Str(x),
        TomlModel::Integer(t) => Json::Number(t),
        TomlModel::Float(Some(t)) => Json::Number(t),
        TomlModel::Float(None) => Json::Null,
        TomlModel::Boolean(b) => Json::Bool(b),
        TomlModel::Datetime(d) => Json::Str(d),
        TomlModel::Array(xs) => Json::Array(
            Seq::new(
                xs.len(),
                |i: int|
                    if 0 <= i < xs.len() {
                        toml_json(xs[i])
                    } else {
                        Json::Null
                    },
            ),
        ),
        TomlModel::Table(es) => Json::Object(put_table(es)),
    }
}

/// What a TOML reading gives as documents.
pub open spec fn toml_documents(r: Result<TomlModel, Seq<char>>) -> Result<Json, Seq<char>> {
    match r {
        Ok(m) => Ok(toml_json(m)),
        Err(e) => Err(e),
    }
}

proof fn lemma_put_entry_sorted(es: Seq<(Seq<char>, Json)>, e: (Seq<char>, Json))
    requires
        sorted_keys(es),
        forall|i: int| 0 <= i < es.len() ==> sorted_json(#[trigger] es[i].1),
        sorted_json(e.1),
    ensures
        sorted_keys(put_entry(es, e)),
        forall|i: int|
            0 <= i < put_entry(es, e).len() ==> sorted_json(#[trigger] put_entry(es, e)[i].1),
{
    lemma_key_index(es, e.0);
    let r = put_entry(es, e);
    match key_index(es, e.0) {
        Some(k) => {
            assert forall|a: int, b: int| 0 <= a < b < r.len() implies key_lt(
                #[trigger] r[a].0,
                #[trigger] r[b].0,
            ) by {
                assert(r[a].0 == es[a].0 && r[b].0 == es[b].0);
            }
            assert forall|i: int| 0 <= i < r.len() implies sorted_json(#[trigger] r[i].1) by {
                if i != k {
                    assert(r[i] == es[i]);
                }
            }
        },
        None => {
            lemma_insert_entry_sorted(es, e);
            lemma_insert_pos(es, e.0);
            let p = insert_pos(es, e.0);
            assert forall|i: int| 0 <= i < r.len() implies sorted_json(#[trigger] r[i].1) by {
                if i < p {
                    assert(r[i] == es[i]);
                } else if i > p {
                    assert(r[i] == es[i - 1]);
                }
            }
        },
    }
}

proof fn lemma_put_table_sorted(es: Seq<(Seq<char>, TomlModel)>)
    ensures
        sorted_keys(put_table(es)),
        forall|i: int| 0 <= i < put_table(es).len() ==> sorted_json(#[trigger] put_table(es)[i].1),
    decreases es,
{
    if es.len() > 0 {
        assert(decreases_to!(es => es[es.len() - 1]));
        assert(decreases_to!(es[es.len() - 1] => es[es.len() - 1].1));
        lemma_toml_json_sorted(es.last().1);
        lemma_put_table_sorted(es.drop_last());
        lemma_put_entry_sorted(put_table(es.drop_last()), (es.last().0, toml_json(es.last().1)));
    }
}

/// The document of every TOML value holds its keys in order.
pub proof fn lemma_toml_json_sorted(m: TomlModel)
    ensures
        sorted_json(toml_json(m)),
    decreases m,
{
    match m {
        TomlModel::Array(xs) => {
            let j = toml_json(m)->Array_0;
            assert forall|i: int| 0 <= i < j.len() implies sorted_json(#[trigger] j[i]) by {
                assert(decreases_to!(m => xs));
                assert(decreases_to!(xs => xs[i]));
                lemma_toml_json_sorted(xs[i]);
            }
        },
        TomlModel::Table(es) => {
            assert(decreases_to!(m => es));
            lemma_put_table_sorted(es);
        },
        _ => {},
    }
}

proof fn lemma_put_table_members(es: Seq<(Seq<char>, TomlModel)>)
    requires
        forall|i: int, j: int| 0 <= i < j < es.len() ==> #[trigger] es[i].0 != #[trigger] es[j].0,
    ensures
        put_table(es).len() == es.len(),
        forall|i: int|
            0 <= i < es.len() ==> lookup(put_table(es), #[trigger] es[i].0) == Some(
                toml_json(es[i].1),
            ),
        forall|k: Seq<char>|
            (forall|i: int| 0 <= i < es.len() ==> #[trigger] es[i].0 != k) ==> lookup(
                put_table(es),
                k,
            ) is None,
    decreases es.len(),
{
    if es.len() > 0 {
        let init = es.drop_last();
        let n = es.len() - 1;
        let kn = es[n].0;
        let e = (kn, toml_json(es[n].1));
        assert forall|i: int, j: int| 0 <= i < j < init.len() implies #[trigger] init[i].0
            != #[trigger] init[j].0 by {
            assert(init[i] == es[i] && init[j] == es[j]);
        }
        lemma_put_table_members(init);
        let obj = put_table(init);
        lemma_put_table_sorted(init);
        crate::value::lemma_sorted_keys_distinct(obj);
        assert forall|i: int| 0 <= i < init.len() implies #[trigger] init[i].0 != kn by {
            assert(init[i] == es[i]);
        }
        assert(lookup(obj, kn) is None);
        lemma_key_index(obj, kn);
        assert(es.last() == es[n]);
        assert(put_table(es) == insert_entry(obj, e));
        lemma_insert_pos(obj, kn);
        assert forall|i: int| 0 <= i < es.len() implies lookup(put_table(es), #[trigger] es[i].0)
            == Some(toml_json(es[i].1)) by {
            lemma_insert_entry_lookup(obj, e, es[i].0);
            if i < n {
                assert(init[i] == es[i]);
            }
        }
        assert forall|k: Seq<char>|
            (forall|i: int| 0 <= i < es.len() ==> #[trigger] es[i].0 != k) implies lookup(
            put_table(es),
            k,
        ) is None by {
            lemma_insert_entry_lookup(obj, e, k);
            assert(es[n].0 != k);
            assert forall|i: int| 0 <= i < init.len() implies #[trigger] init[i].0 != k by {
                assert(init[i] == es[i]);
            }
        }
    }
}

/// The TOML conversion keeps the shape of a value: strings, datetimes and
/// integers stay texts and numbers, a finite float its number and any other
/// float `null`; an array keeps every element, in order, converted; a table
/// with distinct keys keeps one member per key, holding its value
/// converted, and no other member.
pub proof fn lemma_toml_conversion_keeps_every_part(m: TomlModel)
    ensures
        m matches TomlModel::Str(x) ==> toml_json(m) == Json::Str(x),
        m matches TomlModel::Datetime(x) ==> toml_json(m) == Json::Str(x),
        m matches TomlModel::Integer(x) ==> toml_json(m) == Json::Number(x),
        m matches TomlModel::Float(Some(x)) ==> toml_json(m) == Json::Number(x),
        m matches TomlModel::Float(None) ==> toml_json(m) == Json::Null,
        m matches TomlModel::Boolean(b) ==> toml_json(m) == Json::Bool(b),
        m matches TomlModel::Array(xs) ==> toml_json(m) matches Json::Array(js) && js.len()
            == xs.len() && forall|i: int| 0 <= i < xs.len() ==> #[trigger] js[i] == toml_json(xs[i]),
        m matches TomlModel::Table(es) ==> ((forall|i: int, j: int|
            0 <= i < j < es.len() ==> #[trigger] es[i].0 != #[trigger] es[j].0) ==> (toml_json(
            m,
        ) matches Json::Object(obj) && obj.len() == es.len() && (forall|i: int|
            0 <= i < es.len() ==> lookup(obj, #[trigger] es[i].0) == Some(toml_json(es[i].1)))
            && forall|k: Seq<char>|
            (forall|i: int| 0 <= i < es.len() ==> #[trigger] es[i].0 != k) ==> lookup(obj, k) is None)),
{
    if let TomlModel::Table(es) = m {
        if forall|i: int, j: int| 0 <= i < j < es.len() ==> #[trigger] es[i].0 != #[trigger] es[j].0 {
            lemma_put_table_members(es);
        }
    }
}

/// The document that a TOML value stands for.
pub fn toml_to_node(t: &TomlNode) -> (r: Node)
    ensures
        r@ == toml_json(t@),
    decreases t,
{
    match t {
        TomlNode::String(x) => Node::String(x.clone()),
        TomlNode::Integer(x) => Node::Number(x.clone()),
        TomlNode::Float(Some(x)) => Node::Number(x.clone()),
        TomlNode::Float(None) => Node::Null,
        TomlNode::Boolean(b) => Node::Bool(*b),
        TomlNode::Datetime(d) => Node::String(d.clone()),
        TomlNode::Array(a) => {
            let mut out: Vec<Node> = Vec::new();
            let mut i: usize = 0;
            while i < a.len()
                invariant
                    i <= a@.len(),
                    *t == TomlNode::Array(*a),
                    out@.len() == i,
                    forall|j: int|
                        0 <= j < i ==> (#[trigger] out@[j])@ == toml_json(toml_model(a@[j])),
                decreases a.len() - i,
            {
                proof {
                    assert(decreases_to!(*t => (*t)->Array_0));
                    assert(decreases_to!(*a => a@));
                    assert(decreases_to!(a@ => a@[i as int]));
                }
                let c = toml_to_node(&a[i]);
                out.push(c);
                i += 1;
            }
            let r = Node::Array(out);
            assert(models(out@) =~= toml_json(t@)->Array_0);
            r
        },
        TomlNode::Table(o) => {
            let ghost tm = toml_model(*t)->Table_0;
            let mut out: Vec<(String, Node)> = Vec::new();
            let mut i: usize = 0;
            while i < o.len()
                invariant
                    i <= o@.len(),
                    *t == TomlNode::Table(*o),
                    tm == toml_model(*t)->Table_0,
                    tm.len() == o@.len(),
                    entry_models(out@) == put_table(tm.take(i as int)),
                decreases o.len() - i,
            {
                let k = o[i].0.clone();
                proof {
                    assert(decreases_to!(*t => (*t)->Table_0));
                    assert(decreases_to!(*o => o@));
                    assert(decreases_to!(o@ => o@[i as int]));
                    assert(decreases_to!(o@[i as int] => o@[i as int].1));
                }
                let c = toml_to_node(&o[i].1);
                let ghost before = entry_models(out@);
                assert(tm[i as int] == (o@[i as int].0@, toml_model(o@[i as int].1)));
                assert(tm.take(i + 1).drop_last() =~= tm.take(i as int));
                assert(tm.take(i + 1).last() == tm[i as int]);
                match find_key(&out, &k) {
                    Some(j) => {
                        out.set(j, (k, c));
                        assert(entry_models(out@) =~= before.update(j as int, (k@, c@)));
                    },
                    None => {
                        let pos = insert_position(&out, &k);
                        proof {
                            lemma_insert_pos(before, k@);
                        }
                        out.insert(pos, (k, c));
                        assert(entry_models(out@) =~= insert_entry(before, (k@, c@)));
                    },
                }
                i += 1;
            }
            assert(tm.take(o@.len() as int) =~= tm);
            Node::Object(out)
        },
    }
}

/// Conversion of a `toml::Value`, variant by variant: an integer keeps its
/// decimal text, a float the text of the `serde_json::Number` it makes
/// (none when it is not finite), a datetime its `Display` text.
#[verifier::external_body]
fn from_toml(v: toml::Value) -> TomlNode {
    match v {
        toml::Value::String(s) => TomlNode::String(s),
        toml::Value::Integer(i) => TomlNode::Integer(i.to_string()),
        toml::Value::Float(f) => TomlNode::Float(serde_json::Number::from_f64(f).map(|n| n.to_string())),
        toml::Value::Boolean(b) => TomlNode::Boolean(b),
        toml::Value::Datetime(dt) => TomlNode::Datetime(dt.to_string()),
        toml::Value::Array(a) => TomlNode::Array(a.into_iter().map(from_toml).collect()),
        toml::Value::Table(t) => TomlNode::Table(t.into_iter().map(|(k, x)| (k, from_toml(x))).collect()),
    }
}

/// `serde_json::from_str::<serde_json::Value>`. The outcome is a function of
/// the text alone, named by `json_read`; the JSON grammar is not restated.
/// Objects are read into `serde_json::Map`, a `BTreeMap`, and come out with
/// their keys in ascending order.
#[verifier::external_body]
fn json_from_text(text: &str) -> (r: Result<Node, String>)
    ensures
        read_view(r) == json_read(text@),
        r matches Ok(v) ==> sorted_json(v@),
{
    match serde_json::from_str::<serde_json::Value>(text) {
        Ok(v) => Ok(from_serde(v)),
        Err(e) => Err(e.to_string()),
    }
}

/// `serde_norway::from_str::<serde_json::Value>`. The outcome is a function
/// of the text alone, named by `yaml_read`; the YAML grammar is not restated.
/// Mappings are read into `serde_json::Map`, a `BTreeMap`, and come out with
/// their keys in ascending order.
#[verifier::external_body]
fn yaml_from_text(text: &str) -> (r: Result<Node, String>)
    ensures
        read_view(r) == yaml_read(text@),
        r matches Ok(v) ==> sorted_json(v@),
{
    match serde_norway::from_str::<serde_json::Value>(text) {
        Ok(v) => Ok(from_serde(v)),
        Err(e) => Err(e.to_string()),
    }
}

/// `toml::from_str::<toml::Value>`. The outcome is a function of the text
/// alone, named by `toml_read`; the TOML grammar is not restated, and
/// nothing is claimed of the order of a table's keys.
#[verifier::external_body]
fn toml_from_text(text: &str) -> (r: Result<TomlNode, String>)
    ensures
        match r {
            Ok(t) => toml_read(text@) == Ok::<TomlModel, Seq<char>>(t@),
            Err(m) => toml_read(text@) == Err::<TomlModel, Seq<char>>(m@),
        },
{
    match toml::from_str::<toml::Value>(text) {
        Ok(v) => Ok(from_toml(v)),
        Err(e) => Err(e.to_string()),
    }
}

/// `toml::from_str::<serde_json::Value>(..).is_ok()`, named by `toml_accepts`.
#[verifier::external_body]
fn toml_parses(text: &str) -> (r: bool)
    ensures
        r == toml_accepts(text@),
{
    toml::from_str::<serde_json::Value>(text).is_ok()
}

// ---------------------------------------------------------------------------
// Specification
// ---------------------------------------------------------------------------

/// The detection rule: JSON if the text reads as JSON, else TOML if it
/// reads as TOML, else YAML.
pub open spec fn detect_choice(json_ok: bool, toml_ok: bool) -> InputFormat {
    if json_ok {
        InputFormat::Json
    } else if toml_ok {
        InputFormat::Toml
    } else {
        InputFormat::Yaml
    }
}

/// Detection tries JSON first, then TOML, and falls back to YAML: a text
/// that reads as JSON is JSON, whatever else it reads as; one that reads as
/// TOML but not as JSON is TOML; any other text is YAML.
pub proof fn lemma_detection_order(json_ok: bool, toml_ok: bool)
    ensures
        json_ok ==> detect_choice(json_ok, toml_ok) == InputFormat::Json,
        !json_ok && toml_ok ==> detect_choice(json_ok, toml_ok) == InputFormat::Toml,
        !json_ok && !toml_ok ==> detect_choice(json_ok, toml_ok) == InputFormat::Yaml,
{
}

/// Best-effort format detection by trial parsing: JSON, then TOML, then YAML.
pub open spec fn detect_spec(input: Seq<char>) -> InputFormat {
    detect_choice(json_read(input) is Ok, toml_accepts(input))
}

/// The scanner state while splitting text into lines.
pub struct LineState {
    pub lines: Seq<Seq<char>>,
    pub cur: Seq<char>,
}

/// A line ending `\r\n` loses its `\r` as well.
pub open spec fn strip_cr(line: Seq<char>) -> Seq<char> {
    if line.len() > 0 && line.last() == '\r' {
        line.drop_last()
    } else {
        line
    }
}

pub open spec fn line_state(text: Seq<char>) -> LineState
    decreases text.len(),
{
    if text.len() == 0 {
        LineState { lines: Seq::empty(), cur: Seq::empty() }
    } else {
        let st = line_state(text.drop_last());
        if text.last() == '\n' {
            LineState { lines: st.lines.push(strip_cr(st.cur)), cur: Seq::empty() }
        } else {
            LineState { lines: st.lines, cur: st.cur.push(text.last()) }
        }
    }
}

/// The lines of a text, as `str::lines` yields them: split at `\n` or
/// `\r\n`, the final line ending optional.
pub open spec fn text_lines(text: Seq<char>) -> Seq<Seq<char>> {
    let st = line_state(text);
    if st.cur.len() > 0 {
        st.lines.push(st.cur)
    } else {
        st.lines
    }
}

/// The message of a malformed NDJSON line (`line` counts from 1).
pub open spec fn ndjson_message(line: nat, message: Seq<char>) -> Seq<char> {
    "line "@ + decimal(line) + ": "@ + message
}

/// The record that an NDJSON line reads as, or the error that names the line.
pub open spec fn ndjson_outcome(read: Result<Json, Seq<char>>, line: nat) -> Result<Json, Failure> {
    match read {
        Ok(v) => Ok(v),
        Err(m) => Err(Failure::Parse { format: "ndjson"@, message: ndjson_message(line, m) }),
    }
}

/// Records of the first `lines.len()` lines of an NDJSON text.
pub open spec fn ndjson_records(lines: Seq<Seq<char>>) -> Result<Seq<Json>, Failure>
    decreases lines.len(),
{
    if lines.len() == 0 {
        Ok(Seq::empty())
    } else {
        match ndjson_records(lines.drop_last()) {
            Err(e) => Err(e),
            Ok(rs) => if all_ws(lines.last()) {
                Ok(rs)
            } else {
                match ndjson_outcome(json_read(lines.last()), lines.len()) {
                    Ok(v) => Ok(rs.push(v)),
                    Err(e) => Err(e),
                }
            },
        }
    }
}

pub open spec fn single(r: Result<Json, Seq<char>>, format: Seq<char>) -> Result<Seq<Json>, Failure> {
    match r {
        Ok(v) => Ok(seq![v]),
        Err(m) => Err(Failure::Parse { format, message: m }),
    }
}

/// The records that `input` holds, in the forced or detected format.
pub open spec fn parse_spec(input: Seq<char>, forced: Option<InputFormat>) -> Result<
    Seq<Json>,
    Failure,
> {
    let format = match forced {
        Some(f) => f,
        None => detect_spec(input),
    };
    match format {
        InputFormat::Json => single(json_read(input), "json"@),
        InputFormat::Yaml => single(yaml_read(input), "yaml"@),
        InputFormat::Toml => single(toml_documents(toml_read(input)), "toml"@),
        InputFormat::Ndjson => ndjson_records(text_lines(input)),
    }
}

/// Every object of every record holds its keys in ascending order.
pub open spec fn all_sorted(r: Result<Vec<Node>, DotpickError>) -> bool {
    r matches Ok(vs) ==> forall|i: int| 0 <= i < vs@.len() ==> sorted_json(#[trigger] vs@[i]@)
}

pub open spec fn value_result_view(r: Result<Node, DotpickError>) -> Result<Json, Failure> {
    match r {
        Ok(v) => Ok(v@),
        Err(e) => Err(e@),
    }
}

pub open spec fn records_view(r: Result<Vec<Node>, DotpickError>) -> Result<Seq<Json>, Failure> {
    match r {
        Ok(vs) => Ok(models(vs@)),
        Err(e) => Err(e@),
    }
}

// ---------------------------------------------------------------------------
// Implementation
// ---------------------------------------------------------------------------

/// The detection rule, given whether the text reads as JSON and whether it
/// reads as TOML.
pub fn detect_from(json_ok: bool, toml_ok: bool) -> (r: InputFormat)
    ensures
        r == detect_choice(json_ok, toml_ok),
{
    if json_ok {
        InputFormat::Json
    } else if toml_ok {
        InputFormat::Toml
    } else {
        InputFormat::Yaml
    }
}

/// Best-effort format detection by trial parsing.
///
/// JSON is attempted first (it is a strict subset of YAML), then TOML (whose
/// `key = value` lines YAML would silently misread as scalars), then YAML as
/// the permissive fallback.
fn detect(input: &str) -> (r: InputFormat)
    ensures
        r == detect_spec(input@),
{
    let json_ok = json_from_text(input).is_ok();
    if json_ok {
        return detect_from(true, false);
    }
    detect_from(false, toml_parses(input))
}

/// The records of a single-document format, from what its reader made of
/// the text: the one document, or a parse error in `format`.
pub fn single_record(read: Result<Node, String>, format: &str) -> (out: Result<
    Vec<Node>,
    DotpickError,
>)
    ensures
        records_view(out) == single(read_view(read), format@),
        out matches Ok(vs) ==> read matches Ok(v) && vs@ == seq![v],
{
    match read {
        Ok(v) => {
            let mut records: Vec<Node> = Vec::new();
            records.push(v);
            assert(models(records@) =~= seq![records@[0]@]);
            Ok(records)
        },
        Err(m) => Err(DotpickError::Parse { format: owned(format), message: m }),
    }
}

fn parse_json(input: &str) -> (r: Result<Vec<Node>, DotpickError>)
    ensures
        all_sorted(r),
        records_view(r) == single(json_read(input@), "json"@),
{
    single_record(json_from_text(input), "json")
}

fn parse_yaml(input: &str) -> (r: Result<Vec<Node>, DotpickError>)
    ensures
        all_sorted(r),
        records_view(r) == single(yaml_read(input@), "yaml"@),
{
    single_record(yaml_from_text(input), "yaml")
}

fn parse_toml(input: &str) -> (r: Result<Vec<Node>, DotpickError>)
    ensures
        all_sorted(r),
        records_view(r) == single(toml_documents(toml_read(input@)), "toml"@),
{
    match toml_from_text(input) {
        Ok(t) => {
            proof {
                lemma_toml_json_sorted(t@);
            }
            single_record(Ok(toml_to_node(&t)), "toml")
        },
        Err(m) => single_record(Err(m), "toml"),
    }
}

/// The record that one NDJSON line gives, from what the JSON reader made of
/// it; `line` counts from 1 and names the line in the error.
pub fn ndjson_record(read: Result<Node, String>, line: usize) -> (r: Result<Node, DotpickError>)
    ensures
        value_result_view(r) == ndjson_outcome(read_view(read), line as nat),
        r matches Ok(v) ==> read == Ok::<Node, String>(v),
{
    match read {
        Ok(v) => Ok(v),
        Err(e) => {
            let mut message = owned("line ");
            push_decimal(&mut message, line);
            message.append(": ");
            message.append(e.as_str());
            assert(message@ =~= ndjson_message(line as nat, e@));
            Err(DotpickError::Parse { format: owned("ndjson"), message })
        },
    }
}

/// The characters of `cur`, without a final `\r`.
fn without_cr(cur: &Vec<char>) -> (r: Vec<char>)
    ensures
        r@ == strip_cr(cur@),
{
    let n = cur.len();
    let end = if n > 0 && cur[n - 1] == '\r' {
        n - 1
    } else {
        n
    };
    let mut out: Vec<char> = Vec::new();
    let mut i: usize = 0;
    while i < end
        invariant
            i <= end <= n == cur@.len(),
            out@ == cur@.take(i as int),
        decreases end - i,
    {
        out.push(cur[i]);
        i += 1;
        assert(out@ =~= cur@.take(i as int));
    }
    assert(out@ =~= strip_cr(cur@));
    out
}

/// Split a text into lines like `str::lines`.
fn split_lines(text: &Vec<char>) -> (r: Vec<Vec<char>>)
    ensures
        r@.map_values(|l: Vec<char>| l@) == text_lines(text@),
{
    let mut lines: Vec<Vec<char>> = Vec::new();
    let mut cur: Vec<char> = Vec::new();
    let mut i: usize = 0;
    while i < text.len()
        invariant
            i <= text@.len(),
            lines@.map_values(|l: Vec<char>| l@) == line_state(text@.take(i as int)).lines,
            cur@ == line_state(text@.take(i as int)).cur,
        decreases text.len() - i,
    {
        assert(text@.take(i + 1).drop_last() =~= text@.take(i as int));
        let c = text[i];
        if c == '\n' {
            let line = without_cr(&cur);
            let ghost before = lines@;
            lines.push(line);
            assert(lines@.map_values(|l: Vec<char>| l@) =~= before.map_values(|l: Vec<char>| l@).push(
                line@,
            ));
            cur = Vec::new();
        } else {
            cur.push(c);
        }
        i += 1;
    }
    assert(text@.take(text@.len() as int) =~= text@);
    if cur.len() > 0 {
        let ghost before = lines@;
        lines.push(cur);
        assert(lines@.map_values(|l: Vec<char>| l@) =~= before.map_values(|l: Vec<char>| l@).push(
            line_state(text@).cur,
        ));
    }
    lines
}

proof fn lemma_ndjson_error(lines: Seq<Seq<char>>, k: int)
    requires
        0 <= k <= lines.len(),
        ndjson_records(lines.take(k)) is Err,
    ensures
        ndjson_records(lines) == ndjson_records(lines.take(k)),
    decreases lines.len() - k,
{
    if k < lines.len() {
        assert(lines.take(k + 1).drop_last() =~= lines.take(k));
        lemma_ndjson_error(lines, k + 1);
    } else {
        assert(lines.take(k) =~= lines);
    }
}

fn parse_ndjson(input: &str) -> (r: Result<Vec<Node>, DotpickError>)
    ensures
        all_sorted(r),
        records_view(r) == ndjson_records(text_lines(input@)),
{
    let chars = to_chars(input);
    let lines = split_lines(&chars);
    let ghost lv = lines@.map_values(|l: Vec<char>| l@);
    let mut records: Vec<Node> = Vec::new();
    let mut i: usize = 0;
    assert(lv.take(0) =~= Seq::<Seq<char>>::empty());
    assert(models(records@) =~= Seq::<Json>::empty());
    while i < lines.len()
        invariant
            i <= lines@.len(),
            lv == lines@.map_values(|l: Vec<char>| l@),
            lv == text_lines(input@),
            forall|j: int| 0 <= j < records@.len() ==> sorted_json(#[trigger] records@[j]@),
            ndjson_records(lv.take(i as int)) == Ok::<Seq<Json>, Failure>(models(records@)),
        decreases lines.len() - i,
    {
        assert(lv.take(i + 1).drop_last() =~= lv.take(i as int));
        assert(lv.take(i + 1).last() == lines@[i as int]@);
        assert(lv.take(i + 1).len() == i + 1);
        let line = &lines[i];
        if !is_blank(line) {
            let text = string_of(line, 0, line.len());
            assert(line@.subrange(0, line@.len() as int) =~= line@);
            match ndjson_record(json_from_text(text.as_str()), i + 1) {
                Ok(v) => {
                    let ghost before = models(records@);
                    records.push(v);
                    assert(models(records@) =~= before.push(v@));
                },
                Err(e) => {
                    proof {
                        assert(ndjson_records(lv.take(i + 1)) == Err::<Seq<Json>, Failure>(e@));
                        lemma_ndjson_error(lv, i + 1);
                    }
                    return Err(e);
                },
            }
        }
        i += 1;
    }
    assert(lv.take(lines@.len() as int) =~= lv);
    Ok(records)
}

/// Parse `input` into records, detecting the format when `forced` is `None`.
pub fn parse(input: &str, forced: Option<InputFormat>) -> (r: Result<Vec<Node>, DotpickError>)
    ensures
        all_sorted(r),
        records_view(r) == parse_spec(input@, forced),
{
    let format = match forced {
        Some(f) => f,
        None => detect(input),
    };
    match format {
        InputFormat::Json => parse_json(input),
        InputFormat::Yaml => parse_yaml(input),
        InputFormat::Toml => parse_toml(input),
        InputFormat::Ndjson => parse_ndjson(input),
    }
}

/// What `std::path::Path::extension` finds in a file path (as text): the
/// part of the file name after its final `.`, if any.
pub uninterp spec fn path_extension(file: Seq<char>) -> Option<Seq<char>>;

/// Where `c` last occurs in `s`, or -1.
pub open spec fn last_index_of(s: Seq<char>, c: char) -> int
    decreases s.len(),
{
    if s.len() == 0 {
        -1
    } else if s.last() == c {
        s.len() - 1
    } else {
        last_index_of(s.drop_last(), c)
    }
}

/// The file name of a path text made of `/`-separated parts whose last
/// part is a plain name: that part. `None` where the text holds a backslash or `:`
/// (separators and prefixes on some platforms), or where its last part is
/// empty, `.` or `..`.
pub open spec fn plain_file_name(file: Seq<char>) -> Option<Seq<char>> {
    let name = file.skip(last_index_of(file, '/') + 1);
    if last_index_of(file, '\\') >= 0 || last_index_of(file, ':') >= 0 || name.len() == 0
        || name == seq!['.'] || name == seq!['.', '.'] {
        None
    } else {
        Some(name)
    }
}

/// The extension of a file name: what follows its final `.`; none when it
/// has no `.`, or when its only `.` is its first character.
pub open spec fn name_extension(name: Seq<char>) -> Option<Seq<char>> {
    let d = last_index_of(name, '.');
    if d <= 0 {
        None
    } else {
        Some(name.skip(d + 1))
    }
}

/// `std::path::Path::new(file).extension()`, read back as text. The result is
/// a function of the path text alone, named by `path_extension`. Where the
/// last part of the path is a plain file name, the result is what the
/// documentation of `Path::file_name` and `Path::extension` gives: the part
/// of that name after its final `.`, if the `.` is not its first character.
/// The rules that split other paths into components are not restated.
#[verifier::external_body]
fn extension_of(file: &str) -> (r: Option<String>)
    ensures
        crate::error::opt_view(r) == path_extension(file@),
        plain_file_name(file@) matches Some(name) ==> crate::error::opt_view(r) == name_extension(
            name,
        ),
{
    std::path::Path::new(file).extension().and_then(|e| e.to_str()).map(|e| e.to_string())
}

pub open spec fn ascii_lower(c: char) -> char {
    if 'A' <= c <= 'Z' {
        ((c as u32) + 32) as char
    } else {
        c
    }
}

/// `str::to_ascii_lowercase`: ASCII capitals lowered, everything else kept.
pub open spec fn ascii_lowercase(s: Seq<char>) -> Seq<char> {
    s.map_values(|c: char| ascii_lower(c))
}

fn to_ascii_lower(s: &str) -> (r: Vec<char>)
    ensures
        r@ == ascii_lowercase(s@),
{
    let chars = to_chars(s);
    let mut out: Vec<char> = Vec::new();
    let mut i: usize = 0;
    while i < chars.len()
        invariant
            i <= chars@.len(),
            chars@ == s@,
            out@ == ascii_lowercase(chars@.take(i as int)),
        decreases chars.len() - i,
    {
        let c = chars[i];
        let lower = if 'A' <= c && c <= 'Z' {
            ((c as u32) + 32) as u8 as char
        } else {
            c
        };
        assert(lower == ascii_lower(c)) by {
            if 'A' <= c && c <= 'Z' {
                assert(((c as u32) + 32) as u8 as char == ((c as u32) + 32) as char);
            }
        }
        out.push(lower);
        i += 1;
        assert(out@ =~= ascii_lowercase(chars@.take(i as int)));
    }
    assert(chars@.take(chars@.len() as int) =~= chars@);
    out
}

/// The input format that a file extension names (case-insensitively).
pub open spec fn format_for_extension(ext: Seq<char>) -> Option<InputFormat> {
    let e = ascii_lowercase(ext);
    if e == "json"@ {
        Some(InputFormat::Json)
    } else if e == "yaml"@ || e == "yml"@ {
        Some(InputFormat::Yaml)
    } else if e == "toml"@ {
        Some(InputFormat::Toml)
    } else if e == "ndjson"@ || e == "jsonl"@ {
        Some(InputFormat::Ndjson)
    } else {
        None
    }
}

/// Each extension names its format, whatever the case of its letters:
/// `json` JSON; `yaml` and `yml` YAML; `toml` TOML; `ndjson` and `jsonl`
/// NDJSON; every other extension none.
pub proof fn lemma_extension_names_its_format(ext: Seq<char>)
    ensures
        format_for_extension(ext) == Some(InputFormat::Json) <==> ascii_lowercase(ext) == seq![
            'j',
            's',
            'o',
            'n',
        ],
        format_for_extension(ext) == Some(InputFormat::Yaml) <==> ascii_lowercase(ext) == seq![
            'y',
            'a',
            'm',
            'l',
        ] || ascii_lowercase(ext) == seq!['y', 'm', 'l'],
        format_for_extension(ext) == Some(InputFormat::Toml) <==> ascii_lowercase(ext) == seq![
            't',
            'o',
            'm',
            'l',
        ],
        format_for_extension(ext) == Some(InputFormat::Ndjson) <==> ascii_lowercase(ext) == seq![
            'n',
            'd',
            'j',
            's',
            'o',
            'n',
        ] || ascii_lowercase(ext) == seq!['j', 's', 'o', 'n', 'l'],
{
    reveal_strlit("json");
    reveal_strlit("yaml");
    reveal_strlit("yml");
    reveal_strlit("toml");
    reveal_strlit("ndjson");
    reveal_strlit("jsonl");
    let e = ascii_lowercase(ext);
    assert("json"@ =~= seq!['j', 's', 'o', 'n']);
    assert("yaml"@ =~= seq!['y', 'a', 'm', 'l']);
    assert("yml"@ =~= seq!['y', 'm', 'l']);
    assert("toml"@ =~= seq!['t', 'o', 'm', 'l']);
    assert("ndjson"@ =~= seq!['n', 'd', 'j', 's', 'o', 'n']);
    assert("jsonl"@ =~= seq!['j', 's', 'o', 'n', 'l']);
}

fn chars_equal(a: &Vec<char>, b: &str) -> (r: bool)
    ensures
        r == (a@ == b@),
{
    let bc = to_chars(b);
    if a.len() != bc.len() {
        return false;
    }
    let mut i: usize = 0;
    while i < a.len()
        invariant
            i <= a@.len() == bc@.len(),
            bc@ == b@,
            forall|j: int| 0 <= j < i ==> a@[j] == bc@[j],
        decreases a.len() - i,
    {
        if a[i] != bc[i] {
            assert(a@[i as int] != b@[i as int]);
            return false;
        }
        i += 1;
    }
    assert(a@ =~= bc@);
    true
}

/// The input format that a file's extension names, if any.
pub fn format_from_extension(file: &str) -> (r: Option<InputFormat>)
    ensures
        r == match path_extension(file@) {
            Some(ext) => format_for_extension(ext),
            None => None,
        },
        plain_file_name(file@) matches Some(name) ==> r == match name_extension(name) {
            Some(ext) => format_for_extension(ext),
            None => None,
        },
{
    match extension_of(file) {
        Some(ext) => format_for_ext(ext.as_str()),
        None => None,
    }
}

/// The input format that an extension (without its dot) names,
/// case-insensitively.
pub fn format_for_ext(ext: &str) -> (r: Option<InputFormat>)
    ensures
        r == format_for_extension(ext@),
{
    let e = to_ascii_lower(ext);
    if chars_equal(&e, "json") {
        Some(InputFormat::Json)
    } else if chars_equal(&e, "yaml") || chars_equal(&e, "yml") {
        Some(InputFormat::Yaml)
    } else if chars_equal(&e, "toml") {
        Some(InputFormat::Toml)
    } else if chars_equal(&e, "ndjson") || chars_equal(&e, "jsonl") {
        Some(InputFormat::Ndjson)
    } else {
        None
    }
}

} // verus!
