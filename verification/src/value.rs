//! The in-memory document model.
//!
//! Every input format is read into [`Node`], a JSON-shaped tree. A number
//! is kept as the JSON text that the reader printed for it, since dotpick
//! only ever copies numbers from input to output. An object is a list of
//! entries whose keys are distinct; the readers give them, and the
//! projections keep them, in ascending key order, as a `BTreeMap` holds
//! them. The abstract model of a value is [`Json`].

use crate::text::to_chars;
use vstd::prelude::*;

verus! {

/// The mathematical model of a document.
pub enum Json {
    Null,
    Bool(bool),
    /// The JSON text of the number.
    Number(Seq<char>),
    Str(Seq<char>),
    Array(Seq<Json>),
    /// Entries in their stored order; keys are distinct in a well-formed value.
    Object(Seq<(Seq<char>, Json)>),
}

/// A document value.
#[derive(Debug)]
pub enum Node {
    Null,
    Bool(bool),
    /// The JSON text of the number, as the reader printed it.
    Number(String),
    String(String),
    Array(Vec<Node>),
    Object(Vec<(String, Node)>),
}

pub open spec fn model(v: Node) -> Json
    decreases v,
{
    match v {
        Node::Null => Json::Null,
        Node::Bool(b) => Json::Bool(b),
        Node::Number(n) => Json::Number(n@),
        Node::String(s) => Json::Str(s@),
        Node::Array(a) => Json::Array(models(a@)),
        Node::Object(o) => Json::Object(entry_models(o@)),
    }
}

pub open spec fn models(s: Seq<Node>) -> Seq<Json>
    decreases s,
{
    Seq::new(s.len(), |i: int| if 0 <= i < s.len() { model(s[i]) } else { Json::Null })
}

pub open spec fn entry_models(s: Seq<(String, Node)>) -> Seq<(Seq<char>, Json)>
    decreases s,
{
    Seq::new(
        s.len(),
        |i: int|
            if 0 <= i < s.len() {
                (s[i].0@, model(s[i].1))
            } else {
                (Seq::empty(), Json::Null)
            },
    )
}

impl View for Node {
    type V = Json;

    open spec fn view(&self) -> Json {
        model(*self)
    }
}

/// The keys of an object's entries.
pub open spec fn keys_of(es: Seq<(Seq<char>, Json)>) -> Seq<Seq<char>> {
    es.map_values(|e: (Seq<char>, Json)| e.0)
}

/// Whether the entries have pairwise distinct keys.
pub open spec fn distinct_keys(es: Seq<(Seq<char>, Json)>) -> bool {
    forall|i: int, j: int| 0 <= i < j < es.len() ==> #[trigger] es[i].0 != #[trigger] es[j].0
}

/// Whether some entry has key `k`.
pub open spec fn has_key(es: Seq<(Seq<char>, Json)>, k: Seq<char>) -> bool {
    exists|i: int| 0 <= i < es.len() && #[trigger] es[i].0 == k
}

/// Index of the first entry with key `k`.
pub open spec fn key_index(es: Seq<(Seq<char>, Json)>, k: Seq<char>) -> Option<int>
    decreases es.len(),
{
    if es.len() == 0 {
        None
    } else if es[0].0 == k {
        Some(0)
    } else {
        match key_index(es.drop_first(), k) {
            Some(i) => Some(i + 1),
            None => None,
        }
    }
}

/// The value stored under key `k`, if any.
pub open spec fn lookup(es: Seq<(Seq<char>, Json)>, k: Seq<char>) -> Option<Json> {
    match key_index(es, k) {
        Some(i) => Some(es[i].1),
        None => None,
    }
}

/// Every object in the document has distinct keys.
pub open spec fn well_formed(j: Json) -> bool
    decreases j,
{
    match j {
        Json::Array(a) => forall|i: int| 0 <= i < a.len() ==> well_formed(#[trigger] a[i]),
        Json::Object(es) => distinct_keys(es) && forall|i: int|
            0 <= i < es.len() ==> well_formed(#[trigger] es[i].1),
        _ => true,
    }
}

/// Whether a value is a scalar (not an array or object).
pub open spec fn scalar(j: Json) -> bool {
    !(j is Array || j is Object)
}

/// The article-prefixed kind name used in messages.
pub open spec fn kind_name(j: Json) -> Seq<char> {
    match j {
        Json::Null => "null"@,
        Json::Bool(_) => "a boolean"@,
        Json::Number(_) => "a number"@,
        Json::Str(_) => "a string"@,
        Json::Array(_) => "an array"@,
        Json::Object(_) => "an object"@,
    }
}

/// Whether key `a` comes before key `b`: character by character by code
/// point, a proper prefix first. This is the order of `String` keys in a
/// `BTreeMap`, since UTF-8 keeps the order of code points.
pub open spec fn key_lt(a: Seq<char>, b: Seq<char>) -> bool
    decreases a.len(),
{
    if b.len() == 0 {
        false
    } else if a.len() == 0 {
        true
    } else if a[0] != b[0] {
        a[0] < b[0]
    } else {
        key_lt(a.drop_first(), b.drop_first())
    }
}

/// The keys of the entries are in ascending order (so also distinct).
pub open spec fn sorted_keys(es: Seq<(Seq<char>, Json)>) -> bool {
    forall|i: int, j: int| 0 <= i < j < es.len() ==> key_lt(#[trigger] es[i].0, #[trigger] es[j].0)
}

/// Every object in the document holds its keys in ascending order.
pub open spec fn sorted_json(j: Json) -> bool
    decreases j,
{
    match j {
        Json::Array(a) => forall|i: int| 0 <= i < a.len() ==> sorted_json(#[trigger] a[i]),
        Json::Object(es) => sorted_keys(es) && forall|i: int|
            0 <= i < es.len() ==> sorted_json(#[trigger] es[i].1),
        _ => true,
    }
}

/// Where a new key goes among the entries: before the first entry whose key
/// comes after it.
pub open spec fn insert_pos(es: Seq<(Seq<char>, Json)>, k: Seq<char>) -> int
    decreases es.len(),
{
    if es.len() == 0 || key_lt(k, es[0].0) {
        0
    } else {
        1 + insert_pos(es.drop_first(), k)
    }
}

/// The entries with `e` added in key order, as a `BTreeMap` holds a new key.
pub open spec fn insert_entry(es: Seq<(Seq<char>, Json)>, e: (Seq<char>, Json)) -> Seq<
    (Seq<char>, Json),
> {
    es.insert(insert_pos(es, e.0), e)
}

pub proof fn lemma_key_lt_irreflexive(a: Seq<char>)
    ensures
        !key_lt(a, a),
    decreases a.len(),
{
    if a.len() > 0 {
        lemma_key_lt_irreflexive(a.drop_first());
    }
}

pub proof fn lemma_key_lt_transitive(a: Seq<char>, b: Seq<char>, c: Seq<char>)
    requires
        key_lt(a, b),
        key_lt(b, c),
    ensures
        key_lt(a, c),
    decreases a.len(),
{
    if a.len() > 0 && a[0] == b[0] && b[0] == c[0] {
        lemma_key_lt_transitive(a.drop_first(), b.drop_first(), c.drop_first());
    }
}

pub proof fn lemma_key_lt_total(a: Seq<char>, b: Seq<char>)
    requires
        a != b,
    ensures
        key_lt(a, b) || key_lt(b, a),
    decreases a.len(),
{
    if a.len() > 0 && b.len() > 0 && a[0] == b[0] {
        if a.drop_first() == b.drop_first() {
            assert(a.drop_first().len() == a.len() - 1);
            assert(b.drop_first().len() == b.len() - 1);
            assert(a.len() == b.len());
            assert(a =~= b) by {
                assert forall|i: int| 0 <= i < a.len() implies a[i] == b[i] by {
                    if i > 0 {
                        assert(a[i] == a.drop_first()[i - 1]);
                        assert(b[i] == b.drop_first()[i - 1]);
                    }
                }
            }
        }
        lemma_key_lt_total(a.drop_first(), b.drop_first());
    } else if a.len() == 0 && b.len() == 0 {
        assert(a =~= b);
    }
}

/// Keys in ascending order are distinct.
pub proof fn lemma_sorted_keys_distinct(es: Seq<(Seq<char>, Json)>)
    requires
        sorted_keys(es),
    ensures
        distinct_keys(es),
{
    assert forall|i: int, j: int| 0 <= i < j < es.len() implies #[trigger] es[i].0 != #[trigger] es[j].0 by {
        lemma_key_lt_irreflexive(es[i].0);
    }
}

/// A document whose objects keep their keys in order is well-formed.
pub proof fn lemma_sorted_well_formed(j: Json)
    requires
        sorted_json(j),
    ensures
        well_formed(j),
    decreases j,
{
    match j {
        Json::Array(a) => {
            assert forall|i: int| 0 <= i < a.len() implies well_formed(#[trigger] a[i]) by {
                assert(decreases_to!(j => a));
                assert(decreases_to!(a => a[i]));
                lemma_sorted_well_formed(a[i]);
            }
        },
        Json::Object(es) => {
            lemma_sorted_keys_distinct(es);
            assert forall|i: int| 0 <= i < es.len() implies well_formed(#[trigger] es[i].1) by {
                assert(decreases_to!(j => es));
                assert(decreases_to!(es => es[i]));
                assert(decreases_to!(es[i] => es[i].1));
                lemma_sorted_well_formed(es[i].1);
            }
        },
        _ => {},
    }
}

/// The insertion position: within bounds, after every key that `k` does not
/// come before, and before the first key that it does.
pub proof fn lemma_insert_pos(es: Seq<(Seq<char>, Json)>, k: Seq<char>)
    ensures
        0 <= insert_pos(es, k) <= es.len(),
        forall|j: int| 0 <= j < insert_pos(es, k) ==> !key_lt(k, #[trigger] es[j].0),
        insert_pos(es, k) < es.len() ==> key_lt(k, es[insert_pos(es, k)].0),
    decreases es.len(),
{
    if es.len() > 0 && !key_lt(k, es[0].0) {
        lemma_insert_pos(es.drop_first(), k);
        assert forall|j: int| 0 <= j < insert_pos(es, k) implies !key_lt(k, #[trigger] es[j].0) by {
            if j > 0 {
                assert(es[j] == es.drop_first()[j - 1]);
            }
        }
        if insert_pos(es, k) < es.len() {
            assert(es[insert_pos(es, k)] == es.drop_first()[insert_pos(es.drop_first(), k)]);
        }
    }
}

/// The first position whose key comes after `k` is the insertion position.
pub proof fn lemma_insert_pos_first(es: Seq<(Seq<char>, Json)>, k: Seq<char>, p: int)
    requires
        0 <= p <= es.len(),
        forall|j: int| 0 <= j < p ==> !key_lt(k, #[trigger] es[j].0),
        p < es.len() ==> key_lt(k, es[p].0),
    ensures
        insert_pos(es, k) == p,
    decreases es.len(),
{
    if p > 0 {
        assert(!key_lt(k, es[0].0));
        assert forall|j: int| 0 <= j < p - 1 implies !key_lt(k, #[trigger] es.drop_first()[j].0) by {
            assert(es.drop_first()[j] == es[j + 1]);
        }
        if p < es.len() {
            assert(es.drop_first()[p - 1] == es[p]);
        }
        lemma_insert_pos_first(es.drop_first(), k, p - 1);
    }
}

/// Adding a new key in order keeps the keys in order.
pub proof fn lemma_insert_entry_sorted(es: Seq<(Seq<char>, Json)>, e: (Seq<char>, Json))
    requires
        sorted_keys(es),
        !has_key(es, e.0),
    ensures
        sorted_keys(insert_entry(es, e)),
{
    let p = insert_pos(es, e.0);
    lemma_insert_pos(es, e.0);
    let out = insert_entry(es, e);
    es.insert_ensures(p, e);
    assert forall|i: int, j: int| 0 <= i < j < out.len() implies key_lt(
        #[trigger] out[i].0,
        #[trigger] out[j].0,
    ) by {
        if j < p {
            assert(out[i] == es[i] && out[j] == es[j]);
        } else if j == p {
            assert(out[i] == es[i]);
            assert(!key_lt(e.0, es[i].0));
            assert(es[i].0 != e.0);
            lemma_key_lt_total(es[i].0, e.0);
        } else if i < p {
            assert(out[i] == es[i] && out[j] == es[j - 1]);
            assert(es[i].0 != e.0);
            assert(!key_lt(e.0, es[i].0));
            lemma_key_lt_total(es[i].0, e.0);
            if j - 1 > p {
                assert(key_lt(es[p].0, es[j - 1].0));
                lemma_key_lt_transitive(e.0, es[p].0, es[j - 1].0);
            }
            lemma_key_lt_transitive(es[i].0, e.0, es[j - 1].0);
        } else if i == p {
            assert(out[j] == es[j - 1]);
            if j - 1 > p {
                assert(key_lt(es[p].0, es[j - 1].0));
                lemma_key_lt_transitive(e.0, es[p].0, es[j - 1].0);
            }
        } else {
            assert(out[i] == es[i - 1] && out[j] == es[j - 1]);
        }
    }
}

/// Adding a new key: it finds the new value, and every other key finds
/// what it found before; distinct keys stay distinct.
pub proof fn lemma_insert_entry_lookup(es: Seq<(Seq<char>, Json)>, e: (Seq<char>, Json), k: Seq<char>)
    requires
        distinct_keys(es),
        !has_key(es, e.0),
    ensures
        distinct_keys(insert_entry(es, e)),
        lookup(insert_entry(es, e), k) == if k == e.0 {
            Some(e.1)
        } else {
            lookup(es, k)
        },
{
    let p = insert_pos(es, e.0);
    lemma_insert_pos(es, e.0);
    let out = insert_entry(es, e);
    es.insert_ensures(p, e);
    assert(distinct_keys(out)) by {
        assert forall|i: int, j: int| 0 <= i < j < out.len() implies #[trigger] out[i].0
            != #[trigger] out[j].0 by {
            if j < p {
                assert(out[i] == es[i] && out[j] == es[j]);
            } else if j == p {
                assert(out[i] == es[i]);
            } else if i < p {
                assert(out[i] == es[i] && out[j] == es[j - 1]);
            } else if i == p {
                assert(out[j] == es[j - 1]);
            } else {
                assert(out[i] == es[i - 1] && out[j] == es[j - 1]);
            }
        }
    }
    lemma_key_index(es, k);
    lemma_key_index(out, k);
    if k == e.0 {
        lemma_key_index_distinct(out, p);
    } else {
        match key_index(es, k) {
            Some(q) => {
                lemma_key_index_distinct(es, q);
                if q < p {
                    assert(out[q] == es[q]);
                    lemma_key_index_distinct(out, q);
                } else {
                    assert(out[q + 1] == es[q]);
                    lemma_key_index_distinct(out, q + 1);
                }
            },
            None => {
                if let Some(r) = key_index(out, k) {
                    if r < p {
                        assert(out[r] == es[r]);
                    } else if r > p {
                        assert(out[r] == es[r - 1]);
                    }
                }
            },
        }
    }
}

pub proof fn lemma_key_index(es: Seq<(Seq<char>, Json)>, k: Seq<char>)
    ensures
        key_index(es, k) matches Some(i) ==> 0 <= i < es.len() && es[i].0 == k && forall|
            j: int,
        |
            0 <= j < i ==> #[trigger] es[j].0 != k,
        key_index(es, k) is None ==> forall|j: int| 0 <= j < es.len() ==> #[trigger] es[j].0 != k,
        key_index(es, k) is Some <==> has_key(es, k),
    decreases es.len(),
{
    if es.len() > 0 {
        lemma_key_index(es.drop_first(), k);
        if es[0].0 != k {
            assert forall|j: int| 1 <= j < es.len() implies #[trigger] es[j].0 == es.drop_first()[j
                - 1].0 by {}
        }
        if has_key(es, k) && key_index(es, k) is None {
            let w = choose|i: int| 0 <= i < es.len() && #[trigger] es[i].0 == k;
            assert(es.drop_first()[w - 1].0 == k);
        }
    }
}

/// With distinct keys, the entry at `i` is the one found for its key.
pub proof fn lemma_key_index_distinct(es: Seq<(Seq<char>, Json)>, i: int)
    requires
        distinct_keys(es),
        0 <= i < es.len(),
    ensures
        key_index(es, es[i].0) == Some(i),
{
    lemma_key_index(es, es[i].0);
    match key_index(es, es[i].0) {
        Some(j) => {
            if j < i {
                assert(es[j].0 != es[i].0);
            }
            if j > i {
                assert(es[i].0 != es[j].0);
            }
        },
        None => {
            assert(es[i].0 != es[i].0);
        },
    }
}

impl Node {
    /// A copy of this value.
    pub fn deep_copy(&self) -> (r: Node)
        ensures
            r@ == self@,
        decreases self,
    {
        match self {
            Node::Null => Node::Null,
            Node::Bool(b) => Node::Bool(*b),
            Node::Number(n) => Node::Number(n.clone()),
            Node::String(s) => Node::String(s.clone()),
            Node::Array(a) => {
                let mut out: Vec<Node> = Vec::new();
                let mut i: usize = 0;
                while i < a.len()
                    invariant
                        i <= a@.len(),
                        *self == Node::Array(*a),
                        out@.len() == i,
                        forall|j: int| 0 <= j < i ==> model(#[trigger] out@[j]) == model(a@[j]),
                    decreases a.len() - i,
                {
                    proof {
                        assert(decreases_to!(*self => (*self)->Array_0));
                        assert(decreases_to!(*a => a@));
                        assert(decreases_to!(a@ => a@[i as int]));
                    }
                    let c = a[i].deep_copy();
                    out.push(c);
                    i += 1;
                }
                let r = Node::Array(out);
                assert(models(out@) =~= models(a@));
                r
            },
            Node::Object(o) => {
                let mut out: Vec<(String, Node)> = Vec::new();
                let mut i: usize = 0;
                while i < o.len()
                    invariant
                        i <= o@.len(),
                        *self == Node::Object(*o),
                        out@.len() == i,
                        forall|j: int|
                            0 <= j < i ==> (#[trigger] out@[j]).0@ == o@[j].0@ && model(out@[j].1)
                                == model(o@[j].1),
                    decreases o.len() - i,
                {
                    let k = o[i].0.clone();
                    proof {
                        assert(decreases_to!(*self => (*self)->Object_0));
                        assert(decreases_to!(*o => o@));
                        assert(decreases_to!(o@ => o@[i as int]));
                        assert(decreases_to!(o@[i as int] => o@[i as int].1));
                    }
                    let c = o[i].1.deep_copy();
                    out.push((k, c));
                    i += 1;
                }
                let r = Node::Object(out);
                assert(entry_models(out@) =~= entry_models(o@));
                r
            },
        }
    }
}

/// Index of the entry with key `k`, if any.
pub fn find_key(entries: &Vec<(String, Node)>, k: &String) -> (r: Option<usize>)
    ensures
        r matches Some(i) ==> i < entries@.len() && Some(i as int) == key_index(
            entry_models(entries@),
            k@,
        ),
        r is None ==> key_index(entry_models(entries@), k@) is None,
{
    let ghost es = entry_models(entries@);
    let mut i: usize = 0;
    while i < entries.len()
        invariant
            i <= entries@.len(),
            es == entry_models(entries@),
            forall|j: int| 0 <= j < i ==> #[trigger] es[j].0 != k@,
        decreases entries.len() - i,
    {
        if entries[i].0 == *k {
            proof {
                lemma_key_index(es, k@);
                if let Some(j) = key_index(es, k@) {
                    if j > i {
                        assert(es[i as int].0 == k@);
                    }
                }
            }
            return Some(i);
        }
        assert(es[i as int].0 == entries@[i as int].0@);
        i += 1;
    }
    proof {
        lemma_key_index(es, k@);
    }
    None
}

/// Whether key `a` comes before key `b` (see [`key_lt`]).
pub fn key_less(a: &String, b: &String) -> (r: bool)
    ensures
        r == key_lt(a@, b@),
{
    let x = to_chars(a.as_str());
    let y = to_chars(b.as_str());
    let mut i: usize = 0;
    assert(a@.skip(0) =~= a@);
    assert(b@.skip(0) =~= b@);
    while i < x.len() && i < y.len() && x[i] == y[i]
        invariant
            i <= x@.len(),
            i <= y@.len(),
            x@ == a@,
            y@ == b@,
            key_lt(a@, b@) == key_lt(a@.skip(i as int), b@.skip(i as int)),
        decreases x.len() - i,
    {
        let ghost s = a@.skip(i as int);
        let ghost t = b@.skip(i as int);
        assert(s[0] == x@[i as int] && t[0] == y@[i as int]);
        assert(s.drop_first() =~= a@.skip(i + 1));
        assert(t.drop_first() =~= b@.skip(i + 1));
        i += 1;
    }
    let ghost s = a@.skip(i as int);
    let ghost t = b@.skip(i as int);
    if i == y.len() {
        false
    } else if i == x.len() {
        true
    } else {
        assert(s[0] == x@[i as int] && t[0] == y@[i as int]);
        x[i] < y[i]
    }
}

/// Where a new key goes among the entries (see [`insert_pos`]).
pub fn insert_position(entries: &Vec<(String, Node)>, k: &String) -> (r: usize)
    ensures
        r == insert_pos(entry_models(entries@), k@),
{
    let ghost es = entry_models(entries@);
    let mut i: usize = 0;
    while i < entries.len() && !key_less(k, &entries[i].0)
        invariant
            i <= entries@.len(),
            es == entry_models(entries@),
            forall|j: int| 0 <= j < i ==> !key_lt(k@, #[trigger] es[j].0),
        decreases entries.len() - i,
    {
        assert(es[i as int].0 == entries@[i as int].0@);
        i += 1;
    }
    proof {
        if i < entries@.len() {
            assert(es[i as int].0 == entries@[i as int].0@);
        }
        lemma_insert_pos_first(es, k@, i as int);
    }
    i
}

/// The article-prefixed kind name of `v` (`"an object"`, `"a number"`, ...).
pub fn value_type_name(v: &Node) -> (r: &'static str)
    ensures
        r@ == kind_name(v@),
{
    match v {
        Node::Null => "null",
        Node::Bool(_) => "a boolean",
        Node::Number(_) => "a number",
        Node::String(_) => "a string",
        Node::Array(_) => "an array",
        Node::Object(_) => "an object",
    }
}

/// Whether a value is a scalar (valid for raw output).
pub fn is_scalar(v: &Node) -> (r: bool)
    ensures
        r == scalar(v@),
{
    match v {
        Node::Array(_) | Node::Object(_) => false,
        _ => true,
    }
}

} // verus!
