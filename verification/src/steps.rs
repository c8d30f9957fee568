//! Laws of the path grammar and of selection, step by step: what each kind
//! of step is read as, what it selects, and how raw output writes scalars.

use crate::error::Failure;
use crate::output::raw_text;
use crate::path::{
    in_class, is_bareword_char, lemma_class_run_exact, prepend, split_parts, split_state, split_step,
    steps_of,
    CharClass, Step,
};
use crate::text::trim;
use crate::project::{select_each, select_spec};
use crate::value::{lookup, Json};
use vstd::prelude::*;

verus! {

// ---------------------------------------------------------------------------
// What one step selects
// ---------------------------------------------------------------------------

/// One step selects what it names: the empty path the document itself, a
/// key the member stored under it, an index the element at it, and `[]`
/// every element of the array, in order.
pub proof fn lemma_one_step_selects_what_it_names(root: Json, st: Step, display: Seq<char>, allow: bool)
    ensures
        select_spec(root, Seq::empty(), display, allow) == Ok::<Seq<Json>, Failure>(seq![root]),
        st matches Step::Key(k) ==> (root matches Json::Object(es) ==> (lookup(es, k) matches Some(v)
            ==> select_spec(root, seq![st], display, allow) == Ok::<Seq<Json>, Failure>(seq![v]))),
        st matches Step::Index(i) ==> (root matches Json::Array(a) ==> (i < a.len()
            ==> select_spec(root, seq![st], display, allow) == Ok::<Seq<Json>, Failure>(
            seq![a[i as int]],
        ))),
        st matches Step::Iter ==> (root matches Json::Array(a) ==> select_spec(
            root,
            seq![st],
            display,
            allow,
        ) == Ok::<Seq<Json>, Failure>(a)),
{
    let one = seq![st];
    let none = Seq::<Step>::empty();
    assert(one.drop_first() =~= none);
    assert(one.len() == 1 && one[0] == st);
    match st {
        Step::Key(k) => {
            if let Json::Object(es) = root {
                if let Some(v) = lookup(es, k) {
                    assert(select_spec(v, none, display, allow) == Ok::<Seq<Json>, Failure>(seq![v]));
                }
            }
        },
        Step::Index(i) => {
            if let Json::Array(a) = root {
                if i < a.len() {
                    assert(select_spec(a[i as int], none, display, allow) == Ok::<Seq<Json>, Failure>(
                        seq![a[i as int]],
                    ));
                }
            }
        },
        Step::Iter => {
            if let Json::Array(a) = root {
                lemma_select_each_whole(a, display, allow);
            }
        },
    }
}

proof fn lemma_select_each_whole(a: Seq<Json>, display: Seq<char>, allow: bool)
    ensures
        select_each(a, Seq::empty(), display, allow) == Ok::<Seq<Json>, Failure>(a),
    decreases a.len(),
{
    if a.len() > 0 {
        lemma_select_each_whole(a.drop_last(), display, allow);
        assert(select_spec(a.last(), Seq::empty(), display, allow) == Ok::<Seq<Json>, Failure>(
            seq![a.last()],
        ));
        assert(a.drop_last() + seq![a.last()] =~= a);
    } else {
        assert(a =~= Seq::<Json>::empty());
    }
}

// ---------------------------------------------------------------------------
// What each kind of step is read as
// ---------------------------------------------------------------------------

/// A key after a dot is the longest run of key characters that follows:
/// `.w` with `w` made of letters, digits, `_` and `-`, and followed by no
/// such character, is the key `w`.
pub proof fn lemma_dotted_key_is_the_word(w: Seq<char>, rest: Seq<char>)
    requires
        w.len() > 0,
        forall|i: int| 0 <= i < w.len() ==> is_bareword_char(#[trigger] w[i]),
        rest.len() > 0 ==> !is_bareword_char(rest[0]),
    ensures
        steps_of(seq!['.'] + w + rest) == prepend(seq![Step::Key(w)], steps_of(rest)),
{
    let t = seq!['.'] + w + rest;
    let k = w.len() as int;
    let u = t.drop_first();
    assert forall|i: int| 0 <= i < k implies #[trigger] in_class(u[i], CharClass::Bareword) by {
        assert(u[i] == w[i]);
    }
    if k < u.len() {
        assert(u[k] == rest[0]);
    }
    lemma_class_run_exact(u, CharClass::Bareword, k);
    assert(t.subrange(1, 1 + k) =~= w);
    assert(t.skip(1 + k) =~= rest);
}

/// A quoted key in brackets is the text between the quotes, whatever it
/// holds but the quote: `["k"]` and `['k']` are the key `k`.
pub proof fn lemma_quoted_key_is_the_text(q: char, k: Seq<char>, rest: Seq<char>)
    requires
        q == '"' || q == '\'',
        forall|i: int| 0 <= i < k.len() ==> #[trigger] k[i] != q,
    ensures
        steps_of(seq!['[', q] + k + seq![q, ']'] + rest) == prepend(
            seq![Step::Key(k)],
            steps_of(rest),
        ),
{
    let t = seq!['[', q] + k + seq![q, ']'] + rest;
    let m = k.len() as int;
    let u = t.skip(2);
    assert forall|i: int| 0 <= i < m implies #[trigger] in_class(u[i], CharClass::Other(q)) by {
        assert(u[i] == k[i]);
    }
    assert(u[m] == q);
    assert(t[1] == q);
    lemma_class_run_exact(u, CharClass::Other(t[1]), m);
    assert(t[3 + m] == ']');
    assert(t.subrange(2, 2 + m) =~= k);
    assert(t.skip(4 + m) =~= rest);
}

/// `[]` iterates the array it is applied to.
pub proof fn lemma_empty_brackets_iterate(rest: Seq<char>)
    ensures
        steps_of(seq!['[', ']'] + rest) == prepend(seq![Step::Iter], steps_of(rest)),
{
    assert((seq!['[', ']'] + rest).skip(2) =~= rest);
}

// ---------------------------------------------------------------------------
// Raw text
// ---------------------------------------------------------------------------

/// The raw text of a scalar: a string as it is, without quotes; a number
/// as its text; `true`, `false` and `null` as those words.
pub proof fn lemma_raw_text_of_scalars(v: Json)
    ensures
        v matches Json::Str(x) ==> raw_text(v) == x,
        v matches Json::Number(t) ==> raw_text(v) == t,
        v == Json::Bool(true) ==> raw_text(v) == seq!['t', 'r', 'u', 'e'],
        v == Json::Bool(false) ==> raw_text(v) == seq!['f', 'a', 'l', 's', 'e'],
        v == Json::Null ==> raw_text(v) == seq!['n', 'u', 'l', 'l'],
{
    reveal_strlit("true");
    reveal_strlit("false");
    reveal_strlit("null");
    assert("true"@ =~= seq!['t', 'r', 'u', 'e']);
    assert("false"@ =~= seq!['f', 'a', 'l', 's', 'e']);
    assert("null"@ =~= seq!['n', 'u', 'l', 'l']);
}

// ---------------------------------------------------------------------------
// Splitting a list of paths
// ---------------------------------------------------------------------------

/// A character with no meaning to the splitter: not a quote, a bracket or a
/// comma.
pub open spec fn plain_char(c: char) -> bool {
    c != '"' && c != '\'' && c != '[' && c != ']' && c != ','
}

/// The pieces joined by commas.
pub open spec fn join_commas(ps: Seq<Seq<char>>) -> Seq<char>
    decreases ps.len(),
{
    if ps.len() == 0 {
        Seq::empty()
    } else if ps.len() == 1 {
        ps[0]
    } else {
        join_commas(ps.drop_last()) + seq![','] + ps.last()
    }
}

proof fn lemma_split_plain_run(raw: Seq<char>, s: Seq<char>)
    requires
        split_state(raw).quote is None,
        split_state(raw).depth == 0,
        forall|i: int| 0 <= i < s.len() ==> plain_char(#[trigger] s[i]),
    ensures
        split_state(raw + s).parts == split_state(raw).parts,
        split_state(raw + s).cur == split_state(raw).cur + s,
        split_state(raw + s).depth == 0,
        split_state(raw + s).quote is None,
    decreases s.len(),
{
    if s.len() == 0 {
        assert(raw + s =~= raw);
        assert(split_state(raw).cur + s =~= split_state(raw).cur);
    } else {
        let init = s.drop_last();
        assert forall|i: int| 0 <= i < init.len() implies plain_char(#[trigger] init[i]) by {
            assert(init[i] == s[i]);
        }
        lemma_split_plain_run(raw, init);
        assert((raw + s).drop_last() =~= raw + init);
        assert((raw + s).last() == s.last());
        assert(plain_char(s[s.len() - 1]));
        assert((split_state(raw).cur + init).push(s.last()) =~= split_state(raw).cur + s);
    }
}

proof fn lemma_split_quoted_run(raw: Seq<char>, q: char, s: Seq<char>)
    requires
        split_state(raw).quote == Some(q),
        forall|i: int| 0 <= i < s.len() ==> #[trigger] s[i] != q,
    ensures
        split_state(raw + s).parts == split_state(raw).parts,
        split_state(raw + s).cur == split_state(raw).cur + s,
        split_state(raw + s).depth == split_state(raw).depth,
        split_state(raw + s).quote == Some(q),
    decreases s.len(),
{
    if s.len() == 0 {
        assert(raw + s =~= raw);
        assert(split_state(raw).cur + s =~= split_state(raw).cur);
    } else {
        let init = s.drop_last();
        assert forall|i: int| 0 <= i < init.len() implies #[trigger] init[i] != q by {
            assert(init[i] == s[i]);
        }
        lemma_split_quoted_run(raw, q, init);
        assert((raw + s).drop_last() =~= raw + init);
        assert((raw + s).last() == s.last());
        assert(s[s.len() - 1] != q);
        assert((split_state(raw).cur + init).push(s.last()) =~= split_state(raw).cur + s);
    }
}

proof fn lemma_split_joined(ps: Seq<Seq<char>>)
    requires
        ps.len() > 0,
        forall|k: int, i: int|
            0 <= k < ps.len() && 0 <= i < ps[k].len() ==> plain_char(#[trigger] ps[k][i]),
    ensures
        split_state(join_commas(ps)).parts == Seq::new(
            (ps.len() - 1) as nat,
            |k: int| trim(ps[k]),
        ),
        split_state(join_commas(ps)).cur == ps.last(),
        split_state(join_commas(ps)).depth == 0,
        split_state(join_commas(ps)).quote is None,
    decreases ps.len(),
{
    let last = ps.last();
    assert forall|i: int| 0 <= i < last.len() implies plain_char(#[trigger] last[i]) by {
        assert(plain_char(ps[ps.len() - 1][i]));
    }
    if ps.len() == 1 {
        let e = Seq::<char>::empty();
        assert(split_state(e).parts == Seq::<Seq<char>>::empty());
        lemma_split_plain_run(e, ps[0]);
        assert(e + ps[0] =~= ps[0]);
        assert(Seq::<char>::empty() + ps[0] =~= ps[0]);
        assert(Seq::new(0, |k: int| trim(ps[k])) =~= Seq::<Seq<char>>::empty());
    } else {
        let init = ps.drop_last();
        assert forall|k: int, i: int| 0 <= k < init.len() && 0 <= i < init[k].len() implies plain_char(
            #[trigger] init[k][i],
        ) by {
            assert(init[k] == ps[k]);
        }
        lemma_split_joined(init);
        let j = join_commas(init);
        let jc = j + seq![','];
        assert(jc.drop_last() =~= j);
        assert(jc.last() == ',');
        assert(split_state(jc).parts == split_state(j).parts.push(trim(init.last())));
        assert(split_state(jc).cur == Seq::<char>::empty());
        lemma_split_plain_run(jc, last);
        assert(join_commas(ps) == jc + last);
        assert(Seq::<char>::empty() + last =~= last);
        assert(Seq::new((init.len() - 1) as nat, |k: int| trim(init[k])).push(trim(init.last()))
            =~= Seq::new((ps.len() - 1) as nat, |k: int| trim(ps[k])));
    }
}

/// A list of paths without quotes or brackets splits at every comma into
/// its pieces, each trimmed.
pub proof fn lemma_plain_list_splits_at_commas(ps: Seq<Seq<char>>)
    requires
        ps.len() > 0,
        forall|k: int, i: int|
            0 <= k < ps.len() && 0 <= i < ps[k].len() ==> plain_char(#[trigger] ps[k][i]),
    ensures
        split_parts(join_commas(ps)) == Seq::new(ps.len(), |k: int| trim(ps[k])),
{
    lemma_split_joined(ps);
    assert(Seq::new((ps.len() - 1) as nat, |k: int| trim(ps[k])).push(trim(ps.last())) =~= Seq::new(
        ps.len(),
        |k: int| trim(ps[k]),
    ));
}

/// Commas, brackets and the other quote inside a quoted key do not split a
/// path: `a["k"]b`, with plain `a` and `b` and no `"` in `k`, is one piece.
pub proof fn lemma_quoted_key_is_not_split(a: Seq<char>, q: char, k: Seq<char>, b: Seq<char>)
    requires
        q == '"' || q == '\'',
        forall|i: int| 0 <= i < a.len() ==> plain_char(#[trigger] a[i]),
        forall|i: int| 0 <= i < k.len() ==> #[trigger] k[i] != q,
        forall|i: int| 0 <= i < b.len() ==> plain_char(#[trigger] b[i]),
    ensures
        split_parts(a + seq!['[', q] + k + seq![q, ']'] + b) == seq![
            trim(a + seq!['[', q] + k + seq![q, ']'] + b),
        ],
{
    let e = Seq::<char>::empty();
    lemma_split_plain_run(e, a);
    assert(e + a =~= a);
    let s1 = a + seq!['['];
    assert(s1.drop_last() =~= a);
    assert(s1.last() == '[');
    assert(split_state(s1) == split_step(split_state(a), '['));
    assert(split_state(s1).depth == 1 && split_state(s1).quote is None);
    let s2 = s1 + seq![q];
    assert(s2.drop_last() =~= s1);
    assert(s2.last() == q);
    assert(split_state(s2) == split_step(split_state(s1), q));
    assert(split_state(s2).quote == Some(q) && split_state(s2).depth == 1);
    lemma_split_quoted_run(s2, q, k);
    let s3 = s2 + k;
    let s4 = s3 + seq![q];
    assert(s4.drop_last() =~= s3);
    assert(s4.last() == q);
    assert(split_state(s4) == split_step(split_state(s3), q));
    assert(split_state(s4).quote is None && split_state(s4).depth == 1);
    let s5 = s4 + seq![']'];
    assert(s5.drop_last() =~= s4);
    assert(s5.last() == ']');
    assert(split_state(s5) == split_step(split_state(s4), ']'));
    assert(split_state(s5).quote is None && split_state(s5).depth == 0);
    lemma_split_plain_run(s5, b);
    let whole = a + seq!['[', q] + k + seq![q, ']'] + b;
    assert(whole =~= s5 + b);
    assert(split_state(whole).parts == Seq::<Seq<char>>::empty());
    assert(split_state(whole).cur =~= whole);
}

} // verus!
