//! What a projection keeps: every piece that a path prunes from a document
//! stays, at its place, in the merge of all the pieces.

use crate::laws::{
    part_of,
    lemma_prune_each_strict, lemma_prune_strict_is_some, lemma_select_each_rebased, rebased,
    lemma_items_of, lemma_members_of,
    indexes_above, items_sorted, keys_above, lemma_items_tail, lemma_key_lt_total_or_equal,
    lemma_members_tail, lemma_merge_sorted, lemma_prune_sorted, members_sorted, piece_sorted,
};
use crate::path::{PathModel, Step};
use crate::project::{
    merge_items, merge_members, merge_spec, piece_json, prune_each, prune_spec, select_spec,
    structured_acc, structured_spec, Piece,
};
use crate::value::{
    has_key, key_index, key_lt, lemma_key_index, lemma_key_lt_irreflexive, lemma_key_lt_transitive,
    lookup, sorted_json, Json,
};
use vstd::prelude::*;

verus! {

// ---------------------------------------------------------------------------
// Pieces of a document, and pieces kept in pieces
// ---------------------------------------------------------------------------

/// `p` is a piece of `x`: a whole piece is `x` itself; each kept member of
/// an object is found under its key in `x` and is a piece of the value
/// there; each kept element of an array stands at its index in `x` and is a
/// piece of the element there.
pub open spec fn piece_of(p: Piece, x: Json) -> bool
    decreases p,
{
    match p {
        Piece::Whole(y) => y == x,
        Piece::Obj(es) => match x {
            Json::Object(ex) => forall|i: int|
                0 <= i < es.len() ==> match lookup(ex, (#[trigger] es[i]).0) {
                    Some(v) => piece_of(es[i].1, v),
                    None => false,
                },
            _ => false,
        },
        Piece::Arr(xs) => match x {
            Json::Array(a) => forall|i: int|
                0 <= i < xs.len() ==> (#[trigger] xs[i]).0 < a.len() && piece_of(
                    xs[i].1,
                    a[xs[i].0 as int],
                ),
            _ => false,
        },
    }
}

/// The piece that an object piece keeps under key `k`, if any.
pub open spec fn member_of(es: Seq<(Seq<char>, Piece)>, k: Seq<char>) -> Option<Piece>
    decreases es.len(),
{
    if es.len() == 0 {
        None
    } else if es[0].0 == k {
        Some(es[0].1)
    } else {
        member_of(es.drop_first(), k)
    }
}

/// The piece that an array piece keeps for the element at index `n` of the
/// document, if any.
pub open spec fn item_at(xs: Seq<(nat, Piece)>, n: nat) -> Option<Piece>
    decreases xs.len(),
{
    if xs.len() == 0 {
        None
    } else if xs[0].0 == n {
        Some(xs[0].1)
    } else {
        item_at(xs.drop_first(), n)
    }
}

/// `q` is kept in `m`: what `q` keeps, `m` keeps at the same place (object
/// members under the same key, array elements under the same index of the
/// document), down to values that `m` keeps whole.
pub open spec fn kept_in(q: Piece, m: Piece) -> bool
    decreases q,
{
    match m {
        Piece::Whole(x) => piece_of(q, x),
        Piece::Obj(em) => match q {
            Piece::Obj(eq) => forall|i: int|
                0 <= i < eq.len() ==> match member_of(em, (#[trigger] eq[i]).0) {
                    Some(mp) => kept_in(eq[i].1, mp),
                    None => false,
                },
            _ => false,
        },
        Piece::Arr(xm) => match q {
            Piece::Arr(xq) => forall|i: int|
                0 <= i < xq.len() ==> match item_at(xm, (#[trigger] xq[i]).0) {
                    Some(mp) => kept_in(xq[i].1, mp),
                    None => false,
                },
            _ => false,
        },
    }
}

/// What a key or an index holds after two pieces are merged.
pub open spec fn joined(a: Option<Piece>, b: Option<Piece>) -> Option<Piece> {
    match (a, b) {
        (Some(x), Some(y)) => Some(merge_spec(x, y)),
        (Some(x), None) => Some(x),
        (None, y) => y,
    }
}

// ---------------------------------------------------------------------------
// Finding members and items
// ---------------------------------------------------------------------------

proof fn lemma_member_of_found(es: Seq<(Seq<char>, Piece)>, k: Seq<char>) -> (t: int)
    requires
        member_of(es, k) is Some,
    ensures
        0 <= t < es.len(),
        es[t].0 == k,
        es[t].1 == member_of(es, k)->Some_0,
    decreases es.len(),
{
    if es[0].0 == k {
        0
    } else {
        let t = lemma_member_of_found(es.drop_first(), k);
        assert(es.drop_first()[t] == es[t + 1]);
        t + 1
    }
}

proof fn lemma_item_at_found(xs: Seq<(nat, Piece)>, n: nat) -> (t: int)
    requires
        item_at(xs, n) is Some,
    ensures
        0 <= t < xs.len(),
        xs[t].0 == n,
        xs[t].1 == item_at(xs, n)->Some_0,
    decreases xs.len(),
{
    if xs[0].0 == n {
        0
    } else {
        let t = lemma_item_at_found(xs.drop_first(), n);
        assert(xs.drop_first()[t] == xs[t + 1]);
        t + 1
    }
}

proof fn lemma_member_of_index(es: Seq<(Seq<char>, Piece)>, i: int)
    requires
        members_sorted(es),
        0 <= i < es.len(),
    ensures
        member_of(es, es[i].0) == Some(es[i].1),
    decreases es.len(),
{
    if i > 0 {
        assert(key_lt(es[0].0, es[i].0));
        lemma_key_lt_irreflexive(es[i].0);
        lemma_members_tail(es);
        assert(es.drop_first()[i - 1] == es[i]);
        lemma_member_of_index(es.drop_first(), i - 1);
    }
}

proof fn lemma_item_at_index(xs: Seq<(nat, Piece)>, i: int)
    requires
        items_sorted(xs),
        0 <= i < xs.len(),
    ensures
        item_at(xs, xs[i].0) == Some(xs[i].1),
    decreases xs.len(),
{
    if i > 0 {
        assert(xs[0].0 < xs[i].0);
        lemma_items_tail(xs);
        assert(xs.drop_first()[i - 1] == xs[i]);
        lemma_item_at_index(xs.drop_first(), i - 1);
    }
}

proof fn lemma_member_of_below(es: Seq<(Seq<char>, Piece)>, k: Seq<char>)
    requires
        members_sorted(es),
        keys_above(es, k),
    ensures
        member_of(es, k) is None,
    decreases es.len(),
{
    if es.len() > 0 {
        assert(key_lt(k, es[0].0));
        lemma_key_lt_irreflexive(k);
        lemma_members_tail(es);
        assert forall|i: int| 0 <= i < es.len() - 1 implies key_lt(
            k,
            #[trigger] es.drop_first()[i].0,
        ) by {
            assert(es.drop_first()[i] == es[i + 1]);
        }
        lemma_member_of_below(es.drop_first(), k);
    }
}

proof fn lemma_item_at_below(xs: Seq<(nat, Piece)>, n: nat)
    requires
        items_sorted(xs),
        indexes_above(xs, n as int),
    ensures
        item_at(xs, n) is None,
    decreases xs.len(),
{
    if xs.len() > 0 {
        assert(n < xs[0].0);
        lemma_items_tail(xs);
        assert forall|i: int| 0 <= i < xs.len() - 1 implies n < #[trigger] xs.drop_first()[i].0 by {
            assert(xs.drop_first()[i] == xs[i + 1]);
        }
        lemma_item_at_below(xs.drop_first(), n);
    }
}

/// Merged members hold, under each key, the merge of what the two sides
/// hold there.
proof fn lemma_merge_members_at(
    ea: Seq<(Seq<char>, Piece)>,
    eb: Seq<(Seq<char>, Piece)>,
    k: Seq<char>,
)
    requires
        members_sorted(ea),
        members_sorted(eb),
    ensures
        member_of(merge_members(ea, eb), k) == joined(member_of(ea, k), member_of(eb, k)),
    decreases ea.len() + eb.len(),
{
    let m = merge_members(ea, eb);
    if ea.len() == 0 {
    } else if eb.len() == 0 {
    } else {
        lemma_members_tail(ea);
        lemma_members_tail(eb);
        if key_lt(ea[0].0, eb[0].0) {
            let r = merge_members(ea.drop_first(), eb);
            assert(m == seq![ea[0]] + r);
            assert(m.drop_first() =~= r);
            if ea[0].0 == k {
                assert forall|i: int| 0 <= i < eb.len() implies key_lt(k, #[trigger] eb[i].0) by {
                    if i > 0 {
                        assert(eb.drop_first()[i - 1] == eb[i]);
                        lemma_key_lt_transitive(ea[0].0, eb[0].0, eb[i].0);
                    }
                }
                lemma_member_of_below(eb, k);
            } else {
                lemma_merge_members_at(ea.drop_first(), eb, k);
            }
        } else if key_lt(eb[0].0, ea[0].0) {
            let r = merge_members(ea, eb.drop_first());
            assert(m == seq![eb[0]] + r);
            assert(m.drop_first() =~= r);
            if eb[0].0 == k {
                assert forall|i: int| 0 <= i < ea.len() implies key_lt(k, #[trigger] ea[i].0) by {
                    if i > 0 {
                        assert(ea.drop_first()[i - 1] == ea[i]);
                        lemma_key_lt_transitive(eb[0].0, ea[0].0, ea[i].0);
                    }
                }
                lemma_member_of_below(ea, k);
            } else {
                lemma_merge_members_at(ea, eb.drop_first(), k);
            }
        } else {
            lemma_key_lt_total_or_equal(ea[0].0, eb[0].0);
            let r = merge_members(ea.drop_first(), eb.drop_first());
            let x = (ea[0].0, merge_spec(ea[0].1, eb[0].1));
            assert(m == seq![x] + r);
            assert(m.drop_first() =~= r);
            if ea[0].0 != k {
                lemma_merge_members_at(ea.drop_first(), eb.drop_first(), k);
            }
        }
    }
}

/// Merged items hold, at each index, the merge of what the two sides hold
/// there.
proof fn lemma_merge_items_at(xa: Seq<(nat, Piece)>, xb: Seq<(nat, Piece)>, n: nat)
    requires
        items_sorted(xa),
        items_sorted(xb),
    ensures
        item_at(merge_items(xa, xb), n) == joined(item_at(xa, n), item_at(xb, n)),
    decreases xa.len() + xb.len(),
{
    let m = merge_items(xa, xb);
    if xa.len() == 0 {
    } else if xb.len() == 0 {
    } else {
        lemma_items_tail(xa);
        lemma_items_tail(xb);
        if xa[0].0 < xb[0].0 {
            let r = merge_items(xa.drop_first(), xb);
            assert(m == seq![xa[0]] + r);
            assert(m.drop_first() =~= r);
            if xa[0].0 == n {
                assert forall|i: int| 0 <= i < xb.len() implies n < #[trigger] xb[i].0 by {
                    if i > 0 {
                        assert(xb.drop_first()[i - 1] == xb[i]);
                    }
                }
                lemma_item_at_below(xb, n);
            } else {
                lemma_merge_items_at(xa.drop_first(), xb, n);
            }
        } else if xb[0].0 < xa[0].0 {
            let r = merge_items(xa, xb.drop_first());
            assert(m == seq![xb[0]] + r);
            assert(m.drop_first() =~= r);
            if xb[0].0 == n {
                assert forall|i: int| 0 <= i < xa.len() implies n < #[trigger] xa[i].0 by {
                    if i > 0 {
                        assert(xa.drop_first()[i - 1] == xa[i]);
                    }
                }
                lemma_item_at_below(xa, n);
            } else {
                lemma_merge_items_at(xa, xb.drop_first(), n);
            }
        } else {
            let r = merge_items(xa.drop_first(), xb.drop_first());
            let x = (xa[0].0, merge_spec(xa[0].1, xb[0].1));
            assert(m == seq![x] + r);
            assert(m.drop_first() =~= r);
            if xa[0].0 != n {
                lemma_merge_items_at(xa.drop_first(), xb.drop_first(), n);
            }
        }
    }
}

// ---------------------------------------------------------------------------
// Pruning gives a piece of the document
// ---------------------------------------------------------------------------

/// A pruned path is a piece of the document it was pruned from.
pub proof fn lemma_prune_is_piece(root: Json, steps: Seq<Step>, display: Seq<char>, allow: bool)
    ensures
        prune_spec(root, steps, display, allow) matches Ok(Some(q)) ==> piece_of(q, root),
    decreases steps.len(), 1nat, 0nat,
{
    if steps.len() > 0 {
        let rest = steps.drop_first();
        match steps[0] {
            Step::Key(k) => {
                if let Json::Object(es) = root {
                    if let Some(child) = lookup(es, k) {
                        lemma_prune_is_piece(child, rest, display, allow);
                        if let Ok(Some(p)) = prune_spec(child, rest, display, allow) {
                            assert(seq![(k, p)][0] == (k, p));
                        }
                    }
                }
            },
            Step::Index(i) => {
                if let Json::Array(a) = root {
                    if i < a.len() {
                        lemma_prune_is_piece(a[i as int], rest, display, allow);
                        if let Ok(Some(p)) = prune_spec(a[i as int], rest, display, allow) {
                            assert(seq![(i, p)][0] == (i, p));
                        }
                    }
                }
            },
            Step::Iter => {
                if let Json::Array(a) = root {
                    lemma_prune_each_is_piece(a, rest, display, allow);
                }
            },
        }
    }
}

proof fn lemma_prune_each_is_piece(a: Seq<Json>, rest: Seq<Step>, display: Seq<char>, allow: bool)
    ensures
        prune_each(a, rest, display, allow) matches Ok(xs) ==> forall|i: int|
            0 <= i < xs.len() ==> (#[trigger] xs[i]).0 < a.len() && piece_of(
                xs[i].1,
                a[xs[i].0 as int],
            ),
    decreases rest.len() + 1, 0nat, a.len(),
{
    if a.len() > 0 {
        lemma_prune_each_is_piece(a.drop_last(), rest, display, allow);
        lemma_prune_is_piece(a.last(), rest, display, allow);
        if let Ok(xs) = prune_each(a, rest, display, allow) {
            let ys = prune_each(a.drop_last(), rest, display, allow)->Ok_0;
            assert forall|i: int| 0 <= i < xs.len() implies (#[trigger] xs[i]).0 < a.len()
                && piece_of(xs[i].1, a[xs[i].0 as int]) by {
                if i < ys.len() {
                    assert(xs[i] == ys[i]);
                    assert(a.drop_last()[ys[i].0 as int] == a[ys[i].0 as int]);
                }
            }
        }
    }
}

// ---------------------------------------------------------------------------
// Merging keeps both sides
// ---------------------------------------------------------------------------

/// Every piece is kept in itself.
pub proof fn lemma_kept_in_itself(q: Piece)
    requires
        piece_sorted(q),
    ensures
        kept_in(q, q),
    decreases q,
{
    match q {
        Piece::Whole(_) => {},
        Piece::Obj(eq) => {
            assert forall|i: int| 0 <= i < eq.len() implies match member_of(eq, (#[trigger] eq[i]).0) {
                Some(mp) => kept_in(eq[i].1, mp),
                None => false,
            } by {
                lemma_member_of_index(eq, i);
                assert(decreases_to!(q => eq));
                assert(decreases_to!(eq => eq[i]));
                assert(decreases_to!(eq[i] => eq[i].1));
                lemma_kept_in_itself(eq[i].1);
            }
        },
        Piece::Arr(xq) => {
            assert forall|i: int| 0 <= i < xq.len() implies match item_at(xq, (#[trigger] xq[i]).0) {
                Some(mp) => kept_in(xq[i].1, mp),
                None => false,
            } by {
                lemma_item_at_index(xq, i);
                assert(decreases_to!(q => xq));
                assert(decreases_to!(xq => xq[i]));
                assert(decreases_to!(xq[i] => xq[i].1));
                lemma_kept_in_itself(xq[i].1);
            }
        },
    }
}

/// Merging two pieces of one document gives a piece of it that keeps the
/// second piece and everything the first one keeps.
pub proof fn lemma_merge_keeps(a: Piece, b: Piece, x: Json)
    requires
        piece_sorted(a),
        piece_sorted(b),
        piece_of(a, x),
        piece_of(b, x),
    ensures
        piece_of(merge_spec(a, b), x),
        kept_in(b, merge_spec(a, b)),
        forall|q: Piece| kept_in(q, a) && piece_of(q, x) ==> #[trigger] kept_in(q, merge_spec(a, b)),
    decreases a,
{
    lemma_merge_sorted(a, b);
    match (a, b) {
        (Piece::Whole(_), _) => {},
        (_, Piece::Whole(_)) => {},
        (Piece::Obj(ea), Piece::Obj(eb)) => {
            let ex = x->Object_0;
            let out = merge_members(ea, eb);
            lemma_obj_side(a, ea, x, Seq::empty());
            lemma_obj_side(b, eb, x, Seq::empty());
            assert(merge_spec(a, b) == Piece::Obj(out));
            lemma_members_of(Piece::Obj(out), out);
            assert forall|j: int| 0 <= j < out.len() implies match lookup(ex, (#[trigger] out[j]).0) {
                Some(v) => piece_of(out[j].1, v),
                None => false,
            } by {
                let k = out[j].0;
                lemma_member_of_index(out, j);
                lemma_merge_members_at(ea, eb, k);
                lemma_obj_side(a, ea, x, k);
                lemma_obj_side(b, eb, x, k);
                if member_of(ea, k) is Some && member_of(eb, k) is Some {
                    let ta = lemma_member_of_found(ea, k);
                    assert(decreases_to!(a => ea));
                    assert(decreases_to!(ea => ea[ta]));
                    assert(decreases_to!(ea[ta] => ea[ta].1));
                    lemma_merge_keeps(ea[ta].1, member_of(eb, k)->Some_0, lookup(ex, k)->Some_0);
                }
            }
            assert forall|l: int| 0 <= l < eb.len() implies match member_of(out, (#[trigger] eb[l]).0) {
                Some(mp) => kept_in(eb[l].1, mp),
                None => false,
            } by {
                let k = eb[l].0;
                lemma_member_of_index(eb, l);
                lemma_merge_members_at(ea, eb, k);
                lemma_obj_side(a, ea, x, k);
                lemma_obj_side(b, eb, x, k);
                if member_of(ea, k) is Some {
                    let ta = lemma_member_of_found(ea, k);
                    assert(decreases_to!(a => ea));
                    assert(decreases_to!(ea => ea[ta]));
                    assert(decreases_to!(ea[ta] => ea[ta].1));
                    lemma_merge_keeps(ea[ta].1, eb[l].1, lookup(ex, k)->Some_0);
                } else {
                    lemma_kept_in_itself(eb[l].1);
                }
            }
            assert forall|q: Piece| kept_in(q, a) && piece_of(q, x) implies #[trigger] kept_in(
                q,
                merge_spec(a, b),
            ) by {
                let eq = q->Obj_0;
                assert forall|i: int| 0 <= i < eq.len() implies match member_of(
                    out,
                    (#[trigger] eq[i]).0,
                ) {
                    Some(mp) => kept_in(eq[i].1, mp),
                    None => false,
                } by {
                    let k = eq[i].0;
                    assert(match member_of(ea, eq[i].0) {
                        Some(mp) => kept_in(eq[i].1, mp),
                        None => false,
                    });
                    lemma_merge_members_at(ea, eb, k);
                    lemma_obj_side(a, ea, x, k);
                    lemma_obj_side(b, eb, x, k);
                    if member_of(eb, k) is Some {
                        let ta = lemma_member_of_found(ea, k);
                        assert(decreases_to!(a => ea));
                        assert(decreases_to!(ea => ea[ta]));
                        assert(decreases_to!(ea[ta] => ea[ta].1));
                        lemma_merge_keeps(ea[ta].1, member_of(eb, k)->Some_0, lookup(ex, k)->Some_0);
                        assert(kept_in(eq[i].1, ea[ta].1));
                    }
                }
            }
        },
        (Piece::Arr(xa), Piece::Arr(xb)) => {
            let ax = x->Array_0;
            let out = merge_items(xa, xb);
            lemma_arr_side(a, xa, x, 0);
            lemma_arr_side(b, xb, x, 0);
            assert(merge_spec(a, b) == Piece::Arr(out));
            lemma_items_of(Piece::Arr(out), out);
            assert forall|j: int| 0 <= j < out.len() implies (#[trigger] out[j]).0 < ax.len()
                && piece_of(out[j].1, ax[out[j].0 as int]) by {
                let n = out[j].0;
                lemma_item_at_index(out, j);
                lemma_merge_items_at(xa, xb, n);
                lemma_arr_side(a, xa, x, n);
                lemma_arr_side(b, xb, x, n);
                if item_at(xa, n) is Some && item_at(xb, n) is Some {
                    let ta = lemma_item_at_found(xa, n);
                    assert(decreases_to!(a => xa));
                    assert(decreases_to!(xa => xa[ta]));
                    assert(decreases_to!(xa[ta] => xa[ta].1));
                    lemma_merge_keeps(xa[ta].1, item_at(xb, n)->Some_0, ax[n as int]);
                }
            }
            assert forall|l: int| 0 <= l < xb.len() implies match item_at(out, (#[trigger] xb[l]).0) {
                Some(mp) => kept_in(xb[l].1, mp),
                None => false,
            } by {
                let n = xb[l].0;
                lemma_item_at_index(xb, l);
                lemma_merge_items_at(xa, xb, n);
                lemma_arr_side(a, xa, x, n);
                lemma_arr_side(b, xb, x, n);
                if item_at(xa, n) is Some {
                    let ta = lemma_item_at_found(xa, n);
                    assert(decreases_to!(a => xa));
                    assert(decreases_to!(xa => xa[ta]));
                    assert(decreases_to!(xa[ta] => xa[ta].1));
                    lemma_merge_keeps(xa[ta].1, xb[l].1, ax[n as int]);
                } else {
                    lemma_kept_in_itself(xb[l].1);
                }
            }
            assert forall|q: Piece| kept_in(q, a) && piece_of(q, x) implies #[trigger] kept_in(
                q,
                merge_spec(a, b),
            ) by {
                let xq = q->Arr_0;
                assert forall|i: int| 0 <= i < xq.len() implies match item_at(
                    out,
                    (#[trigger] xq[i]).0,
                ) {
                    Some(mp) => kept_in(xq[i].1, mp),
                    None => false,
                } by {
                    let n = xq[i].0;
                    assert(match item_at(xa, xq[i].0) {
                        Some(mp) => kept_in(xq[i].1, mp),
                        None => false,
                    });
                    lemma_merge_items_at(xa, xb, n);
                    lemma_arr_side(a, xa, x, n);
                    lemma_arr_side(b, xb, x, n);
                    if item_at(xb, n) is Some {
                        let ta = lemma_item_at_found(xa, n);
                        assert(decreases_to!(a => xa));
                        assert(decreases_to!(xa => xa[ta]));
                        assert(decreases_to!(xa[ta] => xa[ta].1));
                        lemma_merge_keeps(xa[ta].1, item_at(xb, n)->Some_0, ax[n as int]);
                        assert(kept_in(xq[i].1, xa[ta].1));
                    }
                }
            }
        },
        _ => {},
    }
}

/// What an object piece of `x` keeps under a key is a piece of the value
/// stored there, and its members are sorted.
proof fn lemma_obj_side(p: Piece, es: Seq<(Seq<char>, Piece)>, x: Json, k: Seq<char>)
    requires
        p == Piece::Obj(es),
        piece_sorted(p),
        piece_of(p, x),
    ensures
        members_sorted(es),
        x is Object,
        member_of(es, k) matches Some(mp) ==> lookup(x->Object_0, k) matches Some(v) && piece_of(
            mp,
            v,
        ) && piece_sorted(mp),
{
    lemma_members_of(p, es);
    if member_of(es, k) is Some {
        let t = lemma_member_of_found(es, k);
        assert(es[t] == es[t]);
    }
}

/// What an array piece of `x` keeps at an index is a piece of the element
/// stored there, and its items are sorted.
proof fn lemma_arr_side(p: Piece, xs: Seq<(nat, Piece)>, x: Json, n: nat)
    requires
        p == Piece::Arr(xs),
        piece_sorted(p),
        piece_of(p, x),
    ensures
        items_sorted(xs),
        x is Array,
        item_at(xs, n) matches Some(mp) ==> n < x->Array_0.len() && piece_of(
            mp,
            x->Array_0[n as int],
        ) && piece_sorted(mp),
{
    lemma_items_of(p, xs);
    if item_at(xs, n) is Some {
        let t = lemma_item_at_found(xs, n);
        match (p, x) {
            (Piece::Arr(ys), Json::Array(a)) => {
                assert(ys == xs);
                assert(forall|i: int|
                    0 <= i < ys.len() ==> (#[trigger] ys[i]).0 < a.len() && piece_of(
                        ys[i].1,
                        a[ys[i].0 as int],
                    ));
                let e = ys[t];
                assert(e.0 < a.len() && piece_of(e.1, a[e.0 as int]));
            },
            _ => {},
        }
        assert(piece_sorted(xs[t].1));
    }
}

// ---------------------------------------------------------------------------
// The structured projection keeps every selection
// ---------------------------------------------------------------------------

proof fn lemma_structured_acc_keeps(root: Json, paths: Seq<PathModel>, allow: bool)
    requires
        sorted_json(root),
    ensures
        structured_acc(root, paths, allow) matches Ok(None) ==> forall|k: int|
            0 <= k < paths.len() ==> prune_spec(
                root,
                (#[trigger] paths[k]).steps,
                paths[k].display,
                allow,
            ) == Ok::<Option<Piece>, crate::error::Failure>(None),
        structured_acc(root, paths, allow) matches Ok(Some(m)) ==> {
            &&& piece_of(m, root)
            &&& piece_sorted(m)
            &&& forall|k: int|
                0 <= k < paths.len() ==> (prune_spec(
                    root,
                    (#[trigger] paths[k]).steps,
                    paths[k].display,
                    allow,
                ) matches Ok(Some(q)) ==> kept_in(q, m))
        },
    decreases paths.len(),
{
    if paths.len() > 0 {
        let init = paths.drop_last();
        let last = paths.last();
        lemma_structured_acc_keeps(root, init, allow);
        lemma_prune_is_piece(root, last.steps, last.display, allow);
        lemma_prune_sorted(root, last.steps, last.display, allow);
        assert forall|k: int| 0 <= k < init.len() implies #[trigger] paths[k] == init[k] by {}
        match structured_acc(root, init, allow) {
            Err(_) => {},
            Ok(acc) => match prune_spec(root, last.steps, last.display, allow) {
                Err(_) => {},
                Ok(None) => {},
                Ok(Some(p)) => {
                    match acc {
                        None => {
                            lemma_kept_in_itself(p);
                            assert forall|k: int| 0 <= k < paths.len() implies (prune_spec(
                                root,
                                (#[trigger] paths[k]).steps,
                                paths[k].display,
                                allow,
                            ) matches Ok(Some(q)) ==> kept_in(q, p)) by {
                                if k < init.len() {
                                    assert(paths[k] == init[k]);
                                }
                            }
                        },
                        Some(acc_piece) => {
                            lemma_merge_keeps(acc_piece, p, root);
                            lemma_merge_sorted(acc_piece, p);
                            assert forall|k: int| 0 <= k < paths.len() implies (prune_spec(
                                root,
                                (#[trigger] paths[k]).steps,
                                paths[k].display,
                                allow,
                            ) matches Ok(Some(q)) ==> kept_in(q, merge_spec(acc_piece, p))) by {
                                if k < init.len() {
                                    assert(paths[k] == init[k]);
                                    lemma_prune_is_piece(root, paths[k].steps, paths[k].display, allow);
                                }
                            }
                        },
                    }
                },
            },
        }
    }
}

/// Structured output keeps every selected leaf at its place: the piece that
/// each path prunes from the document is kept in the merged projection,
/// object members under their keys and array elements under their index in
/// the document, and the projection is itself a piece of the document.
pub proof fn lemma_structured_keeps_every_selection(root: Json, paths: Seq<PathModel>, allow: bool)
    requires
        sorted_json(root),
    ensures
        structured_acc(root, paths, allow) matches Ok(Some(m)) ==> {
            &&& structured_spec(root, paths, allow) == Ok::<Json, crate::error::Failure>(
                piece_json(m),
            )
            &&& piece_of(m, root)
            &&& forall|k: int|
                0 <= k < paths.len() ==> (prune_spec(
                    root,
                    (#[trigger] paths[k]).steps,
                    paths[k].display,
                    allow,
                ) matches Ok(Some(q)) ==> kept_in(q, m))
        },
{
    lemma_structured_acc_keeps(root, paths, allow);
}

// ---------------------------------------------------------------------------
// Merging absorbs what is already kept
// ---------------------------------------------------------------------------

/// Sorted members that hold the same piece under every key are the same.
proof fn lemma_members_ext(e1: Seq<(Seq<char>, Piece)>, e2: Seq<(Seq<char>, Piece)>)
    requires
        members_sorted(e1),
        members_sorted(e2),
        forall|k: Seq<char>| #[trigger] member_of(e1, k) == member_of(e2, k),
    ensures
        e1 == e2,
    decreases e1.len() + e2.len(),
{
    if e1.len() == 0 && e2.len() == 0 {
        assert(e1 =~= e2);
    } else if e1.len() == 0 {
        lemma_member_of_index(e2, 0);
        assert(member_of(e1, e2[0].0) is None);
    } else if e2.len() == 0 {
        lemma_member_of_index(e1, 0);
        assert(member_of(e2, e1[0].0) is None);
    } else {
        let h1 = e1[0].0;
        let h2 = e2[0].0;
        lemma_member_of_index(e1, 0);
        lemma_member_of_index(e2, 0);
        lemma_members_tail(e1);
        lemma_members_tail(e2);
        if h1 != h2 {
            assert(member_of(e2, h1) is Some);
            assert(member_of(e1, h2) is Some);
            let t2 = lemma_member_of_found(e2, h1);
            let t1 = lemma_member_of_found(e1, h2);
            lemma_key_lt_irreflexive(h1);
            lemma_key_lt_irreflexive(h2);
            if key_lt(h1, h2) {
                assert(t2 > 0);
                assert(key_lt(h2, e2[t2].0));
                lemma_key_lt_transitive(h1, h2, e2[t2].0);
            } else {
                crate::value::lemma_key_lt_total(h1, h2);
                assert(t1 > 0);
                assert(key_lt(h1, e1[t1].0));
                lemma_key_lt_transitive(h2, h1, e1[t1].0);
            }
        }
        assert(e1[0] == e2[0]);
        let r1 = e1.drop_first();
        let r2 = e2.drop_first();
        assert forall|k: Seq<char>| #[trigger] member_of(r1, k) == member_of(r2, k) by {
            if k == h1 {
                lemma_member_of_below(r1, k);
                lemma_member_of_below(r2, k);
            } else {
                assert(member_of(e1, k) == member_of(r1, k));
                assert(member_of(e2, k) == member_of(r2, k));
            }
        }
        lemma_members_ext(r1, r2);
        assert(e1 =~= seq![e1[0]] + r1);
        assert(e2 =~= seq![e2[0]] + r2);
    }
}

/// Sorted items that hold the same piece at every index are the same.
proof fn lemma_items_ext(x1: Seq<(nat, Piece)>, x2: Seq<(nat, Piece)>)
    requires
        items_sorted(x1),
        items_sorted(x2),
        forall|n: nat| #[trigger] item_at(x1, n) == item_at(x2, n),
    ensures
        x1 == x2,
    decreases x1.len() + x2.len(),
{
    if x1.len() == 0 && x2.len() == 0 {
        assert(x1 =~= x2);
    } else if x1.len() == 0 {
        lemma_item_at_index(x2, 0);
        assert(item_at(x1, x2[0].0) is None);
    } else if x2.len() == 0 {
        lemma_item_at_index(x1, 0);
        assert(item_at(x2, x1[0].0) is None);
    } else {
        let h1 = x1[0].0;
        let h2 = x2[0].0;
        lemma_item_at_index(x1, 0);
        lemma_item_at_index(x2, 0);
        lemma_items_tail(x1);
        lemma_items_tail(x2);
        if h1 != h2 {
            assert(item_at(x2, h1) is Some);
            assert(item_at(x1, h2) is Some);
            let t2 = lemma_item_at_found(x2, h1);
            let t1 = lemma_item_at_found(x1, h2);
            if h1 < h2 {
                assert(t2 > 0);
                assert(h2 < x2[t2].0);
            } else {
                assert(t1 > 0);
                assert(h1 < x1[t1].0);
            }
        }
        assert(x1[0] == x2[0]);
        let r1 = x1.drop_first();
        let r2 = x2.drop_first();
        assert forall|n: nat| #[trigger] item_at(r1, n) == item_at(r2, n) by {
            if n == h1 {
                lemma_item_at_below(r1, n);
                lemma_item_at_below(r2, n);
            } else {
                assert(item_at(x1, n) == item_at(r1, n));
                assert(item_at(x2, n) == item_at(r2, n));
            }
        }
        lemma_items_ext(r1, r2);
        assert(x1 =~= seq![x1[0]] + r1);
        assert(x2 =~= seq![x2[0]] + r2);
    }
}

/// Merging a piece with one it already keeps, in either order, gives the
/// larger piece back.
pub proof fn lemma_merge_absorbs(a: Piece, b: Piece)
    requires
        piece_sorted(a),
        piece_sorted(b),
        kept_in(b, a),
    ensures
        merge_spec(a, b) == a,
        merge_spec(b, a) == a,
    decreases a,
{
    match a {
        Piece::Whole(_) => {},
        Piece::Obj(ea) => {
            let eb = b->Obj_0;
            lemma_members_of(a, ea);
            lemma_members_of(b, eb);
            lemma_merge_sorted(a, b);
            lemma_merge_sorted(b, a);
            let o1 = merge_members(ea, eb);
            let o2 = merge_members(eb, ea);
            assert(merge_spec(a, b) == Piece::Obj(o1));
            assert(merge_spec(b, a) == Piece::Obj(o2));
            lemma_members_of(Piece::Obj(o1), o1);
            lemma_members_of(Piece::Obj(o2), o2);
            assert forall|k: Seq<char>| #[trigger] member_of(o1, k) == member_of(ea, k)
                && member_of(o2, k) == member_of(ea, k) by {
                lemma_merge_members_at(ea, eb, k);
                lemma_merge_members_at(eb, ea, k);
                if member_of(eb, k) is Some {
                    let t = lemma_member_of_found(eb, k);
                    assert(match member_of(ea, eb[t].0) {
                        Some(mp) => kept_in(eb[t].1, mp),
                        None => false,
                    });
                    let s = lemma_member_of_found(ea, k);
                    assert(decreases_to!(a => ea));
                    assert(decreases_to!(ea => ea[s]));
                    assert(decreases_to!(ea[s] => ea[s].1));
                    lemma_merge_absorbs(ea[s].1, eb[t].1);
                }
            }
            lemma_members_ext(o1, ea);
            lemma_members_ext(o2, ea);
        },
        Piece::Arr(xa) => {
            let xb = b->Arr_0;
            lemma_items_of(a, xa);
            lemma_items_of(b, xb);
            lemma_merge_sorted(a, b);
            lemma_merge_sorted(b, a);
            let o1 = merge_items(xa, xb);
            let o2 = merge_items(xb, xa);
            assert(merge_spec(a, b) == Piece::Arr(o1));
            assert(merge_spec(b, a) == Piece::Arr(o2));
            lemma_items_of(Piece::Arr(o1), o1);
            lemma_items_of(Piece::Arr(o2), o2);
            assert forall|n: nat| #[trigger] item_at(o1, n) == item_at(xa, n) && item_at(o2, n)
                == item_at(xa, n) by {
                lemma_merge_items_at(xa, xb, n);
                lemma_merge_items_at(xb, xa, n);
                if item_at(xb, n) is Some {
                    let t = lemma_item_at_found(xb, n);
                    assert(match item_at(xa, xb[t].0) {
                        Some(mp) => kept_in(xb[t].1, mp),
                        None => false,
                    });
                    let s = lemma_item_at_found(xa, n);
                    assert(decreases_to!(a => xa));
                    assert(decreases_to!(xa => xa[s]));
                    assert(decreases_to!(xa[s] => xa[s].1));
                    lemma_merge_absorbs(xa[s].1, xb[t].1);
                }
            }
            lemma_items_ext(o1, xa);
            lemma_items_ext(o2, xa);
        },
    }
}

// ---------------------------------------------------------------------------
// Selecting in what is kept
// ---------------------------------------------------------------------------

/// Whether the steps avoid array indexing (`[n]`), whose positions a
/// projection re-bases.
pub open spec fn index_free(steps: Seq<Step>) -> bool {
    forall|i: int| 0 <= i < steps.len() ==> !(#[trigger] steps[i] is Index)
}

proof fn lemma_index_free_rest(steps: Seq<Step>)
    requires
        index_free(steps),
        steps.len() > 0,
    ensures
        index_free(steps.drop_first()),
        !(steps[0] is Index),
        rebased(steps.drop_first()) == steps.drop_first(),
{
    let rest = steps.drop_first();
    assert forall|i: int| 0 <= i < rest.len() implies !(#[trigger] rest[i] is Index) by {
        assert(rest[i] == steps[i + 1]);
    }
    assert(rebased(rest) =~= rest);
}

/// Sorted items below `n` that hold every index below `n` hold exactly the
/// indexes `0..n`, in order.
proof fn lemma_full_items(xm: Seq<(nat, Piece)>, n: nat)
    requires
        items_sorted(xm),
        forall|j: int| 0 <= j < xm.len() ==> (#[trigger] xm[j]).0 < n,
        forall|i: nat| i < n ==> (#[trigger] item_at(xm, i)) is Some,
    ensures
        xm.len() == n,
        forall|j: int| 0 <= j < xm.len() ==> (#[trigger] xm[j]).0 == j,
{
    lemma_items_grow(xm, xm.len() as int);
    assert forall|i: nat| i < n implies i < xm.len() && (#[trigger] xm[i as int]).0 == i by {
        lemma_item_is_its_index(xm, n, i);
    }
    if xm.len() > n {
        assert(xm[n as int].0 >= n);
    }
    if xm.len() < n {
        lemma_item_is_its_index(xm, n, (n - 1) as nat);
    }
}

proof fn lemma_items_grow(xm: Seq<(nat, Piece)>, k: int)
    requires
        items_sorted(xm),
        0 <= k <= xm.len(),
    ensures
        forall|j: int| 0 <= j < k ==> (#[trigger] xm[j]).0 >= j,
    decreases k,
{
    if k > 0 {
        lemma_items_grow(xm, k - 1);
        if k > 1 {
            assert(xm[k - 2].0 < xm[k - 1].0);
        }
    }
}

proof fn lemma_item_is_its_index(xm: Seq<(nat, Piece)>, n: nat, i: nat)
    requires
        items_sorted(xm),
        forall|j: int| 0 <= j < xm.len() ==> (#[trigger] xm[j]).0 >= j,
        forall|i: nat| i < n ==> (#[trigger] item_at(xm, i)) is Some,
        i < n,
    ensures
        i < xm.len(),
        xm[i as int].0 == i,
    decreases i,
{
    assert(item_at(xm, i) is Some);
    let t = lemma_item_at_found(xm, i);
    assert(xm[t].0 >= t);
    if t < i {
        lemma_item_is_its_index(xm, n, t as nat);
    }
}

/// Where a pruned path without array indexes is kept in a sorted piece of
/// the document, selecting the path in that piece gives what selecting it
/// in the document gives.
proof fn lemma_kept_selects(root: Json, steps: Seq<Step>, display: Seq<char>, q: Piece, m: Piece)
    requires
        index_free(steps),
        prune_spec(root, steps, display, false) == Ok::<Option<Piece>, crate::error::Failure>(
            Some(q),
        ),
        kept_in(q, m),
        piece_of(m, root),
        piece_sorted(m),
    ensures
        select_spec(piece_json(m), steps, display, false) == select_spec(root, steps, display, false),
    decreases steps.len(),
{
    if m is Whole {
    } else if steps.len() == 0 {
        assert(q == Piece::Whole(root));
    } else {
        let rest = steps.drop_first();
        lemma_index_free_rest(steps);
        match steps[0] {
            Step::Key(k) => {
                let es = root->Object_0;
                let child = lookup(es, k)->Some_0;
                let qc = prune_spec(child, rest, display, false)->Ok_0->Some_0;
                assert(q == Piece::Obj(seq![(k, qc)]));
                let em = m->Obj_0;
                lemma_members_of(m, em);
                assert(seq![(k, qc)][0] == (k, qc));
                assert(match member_of(em, k) {
                    Some(mp) => kept_in(qc, mp),
                    None => false,
                });
                let t = lemma_member_of_found(em, k);
                let mc = em[t].1;
                assert(piece_of(mc, child));
                let pe = piece_json(m)->Object_0;
                assert(pe.len() == em.len());
                assert forall|a: int, b: int| 0 <= a < b < pe.len() implies #[trigger] pe[a].0
                    != #[trigger] pe[b].0 by {
                    assert(pe[a].0 == em[a].0 && pe[b].0 == em[b].0);
                    assert(key_lt(em[a].0, em[b].0));
                    lemma_key_lt_irreflexive(em[a].0);
                }
                assert(pe[t] == (k, piece_json(mc)));
                crate::value::lemma_key_index_distinct(pe, t);
                lemma_kept_selects(child, rest, display, qc, mc);
            },
            Step::Index(_) => {},
            Step::Iter => {
                let a = root->Array_0;
                lemma_prune_each_strict(a, rest, display);
                let xs = prune_each(a, rest, display, false)->Ok_0;
                assert(q == Piece::Arr(xs));
                let xm = m->Arr_0;
                lemma_items_of(m, xm);
                assert forall|i: nat| i < a.len() implies (#[trigger] item_at(xm, i)) is Some by {
                    assert(xs[i as int].0 == i);
                    assert(match item_at(xm, xs[i as int].0) {
                        Some(mp) => kept_in(xs[i as int].1, mp),
                        None => false,
                    });
                }
                assert forall|j: int| 0 <= j < xm.len() implies (#[trigger] xm[j]).0 < a.len() by {}
                lemma_full_items(xm, a.len());
                let vs = piece_json(m)->Array_0;
                assert forall|i: int| 0 <= i < a.len() implies select_spec(
                    #[trigger] vs[i],
                    rebased(rest),
                    display,
                    false,
                ) == select_spec(a[i], rest, display, false) by {
                    assert(vs[i] == piece_json(xm[i].1));
                    assert(xs[i].0 == i);
                    assert(xm[i].0 == i);
                    lemma_item_at_index(xm, i);
                    assert(match item_at(xm, xs[i].0) {
                        Some(mp) => kept_in(xs[i].1, mp),
                        None => false,
                    });
                    assert(piece_of(xm[i].1, a[xm[i].0 as int]));
                    assert(piece_sorted(xm[i].1));
                    lemma_kept_selects(a[i], rest, display, xs[i].1, xm[i].1);
                }
                lemma_select_each_rebased(vs, a, rest, display);
            },
        }
    }
}

proof fn lemma_structured_acc_prunes_ok(root: Json, paths: Seq<PathModel>, allow: bool)
    ensures
        structured_acc(root, paths, allow) is Ok ==> forall|k: int|
            0 <= k < paths.len() ==> prune_spec(
                root,
                (#[trigger] paths[k]).steps,
                paths[k].display,
                allow,
            ) is Ok,
    decreases paths.len(),
{
    if paths.len() > 0 {
        lemma_structured_acc_prunes_ok(root, paths.drop_last(), allow);
        assert forall|k: int| 0 <= k < paths.len() - 1 implies #[trigger] paths[k]
            == paths.drop_last()[k] by {}
    }
}

/// Structured output keeps every selection: selecting, in the output, any
/// of the projected paths that has no array index gives what selecting it
/// in the document gives.
pub proof fn lemma_structured_keeps_selections(root: Json, paths: Seq<PathModel>, k: int)
    requires
        sorted_json(root),
        0 <= k < paths.len(),
        index_free(paths[k].steps),
        structured_spec(root, paths, false) is Ok,
    ensures
        select_spec(
            structured_spec(root, paths, false)->Ok_0,
            paths[k].steps,
            paths[k].display,
            false,
        ) == select_spec(root, paths[k].steps, paths[k].display, false),
{
    lemma_structured_acc_keeps(root, paths, false);
    lemma_structured_acc_prunes_ok(root, paths, false);
    let p = paths[k];
    lemma_prune_strict_is_some(root, p.steps, p.display);
    let m = structured_acc(root, paths, false)->Ok_0->Some_0;
    let q = prune_spec(root, p.steps, p.display, false)->Ok_0->Some_0;
    lemma_kept_selects(root, p.steps, p.display, q, m);
}

// ---------------------------------------------------------------------------
// Values as pieces: merging a value with a part of it
// ---------------------------------------------------------------------------

/// A value as a piece that keeps all of it: every object member and every
/// array element, down to the scalars.
pub open spec fn full_piece(x: Json) -> Piece
    decreases x,
{
    match x {
        Json::Object(es) => Piece::Obj(
            Seq::new(
                es.len(),
                |i: int|
                    if 0 <= i < es.len() {
                        (es[i].0, full_piece(es[i].1))
                    } else {
                        (Seq::empty(), Piece::Whole(Json::Null))
                    },
            ),
        ),
        Json::Array(a) => Piece::Arr(
            Seq::new(
                a.len(),
                |i: int|
                    if 0 <= i < a.len() {
                        (i as nat, full_piece(a[i]))
                    } else {
                        (0nat, Piece::Whole(Json::Null))
                    },
            ),
        ),
        _ => Piece::Whole(x),
    }
}

/// The piece that keeps all of a value stands for the value.
pub proof fn lemma_full_piece_json(x: Json)
    ensures
        piece_json(full_piece(x)) == x,
    decreases x,
{
    match x {
        Json::Object(es) => {
            let j = piece_json(full_piece(x))->Object_0;
            assert forall|i: int| 0 <= i < es.len() implies #[trigger] j[i] == es[i] by {
                assert(decreases_to!(x => es));
                assert(decreases_to!(es => es[i]));
                assert(decreases_to!(es[i] => es[i].1));
                lemma_full_piece_json(es[i].1);
            }
            assert(j =~= es);
        },
        Json::Array(a) => {
            let j = piece_json(full_piece(x))->Array_0;
            assert forall|i: int| 0 <= i < a.len() implies #[trigger] j[i] == a[i] by {
                assert(decreases_to!(x => a));
                assert(decreases_to!(a => a[i]));
                lemma_full_piece_json(a[i]);
            }
            assert(j =~= a);
        },
        _ => {},
    }
}

proof fn lemma_full_piece_sorted(x: Json)
    requires
        sorted_json(x),
    ensures
        piece_sorted(full_piece(x)),
    decreases x,
{
    match x {
        Json::Object(es) => {
            let fs = full_piece(x)->Obj_0;
            assert forall|i: int| 0 <= i < fs.len() implies piece_sorted(#[trigger] fs[i].1) by {
                assert(decreases_to!(x => es));
                assert(decreases_to!(es => es[i]));
                assert(decreases_to!(es[i] => es[i].1));
                lemma_full_piece_sorted(es[i].1);
            }
            assert forall|i: int, j: int| 0 <= i < j < fs.len() implies key_lt(
                #[trigger] fs[i].0,
                #[trigger] fs[j].0,
            ) by {
                assert(fs[i].0 == es[i].0 && fs[j].0 == es[j].0);
            }
        },
        Json::Array(a) => {
            let fs = full_piece(x)->Arr_0;
            assert forall|i: int| 0 <= i < fs.len() implies piece_sorted(#[trigger] fs[i].1) by {
                assert(decreases_to!(x => a));
                assert(decreases_to!(a => a[i]));
                lemma_full_piece_sorted(a[i]);
            }
        },
        _ => {},
    }
}

proof fn lemma_part_is_kept(b: Json, a: Json)
    requires
        sorted_json(a),
        part_of(b, a),
    ensures
        kept_in(full_piece(b), full_piece(a)),
    decreases b,
{
    lemma_full_piece_sorted(a);
    match b {
        Json::Object(eb) => {
            let ea = a->Object_0;
            let fb = full_piece(b)->Obj_0;
            let fa = full_piece(a)->Obj_0;
            lemma_members_of(full_piece(a), fa);
            crate::value::lemma_sorted_keys_distinct(ea);
            assert forall|i: int| 0 <= i < fb.len() implies match member_of(fa, (#[trigger] fb[i]).0) {
                Some(mp) => kept_in(fb[i].1, mp),
                None => false,
            } by {
                let k = eb[i].0;
                assert(match lookup(ea, eb[i].0) {
                    Some(v) => part_of(eb[i].1, v),
                    None => false,
                });
                lemma_key_index(ea, k);
                let j = key_index(ea, k)->Some_0;
                assert(fa[j] == (ea[j].0, full_piece(ea[j].1)));
                lemma_member_of_index(fa, j);
                assert(sorted_json(ea[j].1));
                assert(decreases_to!(b => eb));
                assert(decreases_to!(eb => eb[i]));
                assert(decreases_to!(eb[i] => eb[i].1));
                lemma_part_is_kept(eb[i].1, ea[j].1);
            }
        },
        Json::Array(xb) => {
            let xa = a->Array_0;
            let fb = full_piece(b)->Arr_0;
            let fa = full_piece(a)->Arr_0;
            lemma_items_of(full_piece(a), fa);
            assert forall|i: int| 0 <= i < fb.len() implies match item_at(fa, (#[trigger] fb[i]).0) {
                Some(mp) => kept_in(fb[i].1, mp),
                None => false,
            } by {
                assert(fa[i].0 == i);
                lemma_item_at_index(fa, i);
                assert(part_of(xb[i], xa[i]));
                assert(decreases_to!(b => xb));
                assert(decreases_to!(xb => xb[i]));
                lemma_part_is_kept(xb[i], xa[i]);
            }
        },
        _ => {},
    }
}

/// Merging a value with a part of it (object members deleted at any depth,
/// arrays kept at their length), in either order, gives the value back.
pub proof fn lemma_merge_absorbs_parts(a: Json, b: Json)
    requires
        sorted_json(a),
        sorted_json(b),
        part_of(b, a),
    ensures
        merge_spec(full_piece(a), full_piece(b)) == full_piece(a),
        merge_spec(full_piece(b), full_piece(a)) == full_piece(a),
        piece_json(merge_spec(full_piece(a), full_piece(b))) == a,
        piece_json(merge_spec(full_piece(b), full_piece(a))) == a,
{
    lemma_full_piece_sorted(a);
    lemma_full_piece_sorted(b);
    lemma_part_is_kept(b, a);
    lemma_merge_absorbs(full_piece(a), full_piece(b));
    lemma_full_piece_json(a);
}

} // verus!
