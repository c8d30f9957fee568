//! Projection: turn a document plus a set of dotpaths into the smallest
//! value that contains exactly the selected leaves.
//!
//! Two shapes are produced:
//! - [`structured`] keeps the document's nesting (a pruned sub-document).
//! - [`flat`] keys each selected leaf by its final name.
//!
//! [`select`] returns the bare leaf values and backs both `--flat` and
//! raw output.

use crate::error::{DotpickError, Failure};
use crate::path::{has_iter_step, last_key, Path, PathModel, Segment, Step, steps_of_segments};
use crate::text::{decimal, owned, push_char, push_decimal, to_chars};
use crate::value::{
    entry_models, find_key, has_key, insert_entry, insert_position, key_index, key_less, key_lt,
    kind_name, lemma_insert_pos, lookup, model, models, value_type_name, Json, Node,
};
use vstd::prelude::*;

verus! {

// ---------------------------------------------------------------------------
// Edit distance and the "nearest existing key" hint
// ---------------------------------------------------------------------------

pub open spec fn min3(x: int, y: int, z: int) -> int {
    let m = if x <= y {
        x
    } else {
        y
    };
    if m <= z {
        m
    } else {
        z
    }
}

/// Levenshtein distance: the fewest single-character insertions, deletions
/// and substitutions that turn `a` into `b`.
pub open spec fn lev(a: Seq<char>, b: Seq<char>) -> nat
    decreases a.len() + b.len(),
{
    if a.len() == 0 {
        b.len()
    } else if b.len() == 0 {
        a.len()
    } else {
        let cost: int = if a.last() == b.last() {
            0
        } else {
            1
        };
        min3(
            lev(a.drop_last(), b) + 1int,
            lev(a, b.drop_last()) + 1int,
            lev(a.drop_last(), b.drop_last()) + cost,
        ) as nat
    }
}

/// The first key (in entry order) at minimal distance from `missing`, among
/// those at distance at most 3.
pub open spec fn nearest(es: Seq<(Seq<char>, Json)>, missing: Seq<char>) -> Option<Seq<char>>
    decreases es.len(),
{
    if es.len() == 0 {
        None
    } else {
        let prev = nearest(es.drop_last(), missing);
        let k = es.last().0;
        let d = lev(k, missing);
        if d > 3 {
            prev
        } else {
            match prev {
                None => Some(k),
                Some(pk) => if d < lev(pk, missing) {
                    Some(k)
                } else {
                    prev
                },
            }
        }
    }
}

pub proof fn lemma_lev_bound(a: Seq<char>, b: Seq<char>)
    ensures
        lev(a, b) <= if a.len() <= b.len() {
            b.len()
        } else {
            a.len()
        },
    decreases a.len() + b.len(),
{
    if a.len() > 0 && b.len() > 0 {
        lemma_lev_bound(a.drop_last(), b.drop_last());
    }
}

/// The edit distance between `a` and `b`, by the two-row dynamic program.
fn levenshtein(a: &Vec<char>, b: &Vec<char>) -> (r: usize)
    ensures
        r == lev(a@, b@),
{
    let blen = b.len();
    let alen = a.len();
    let mut prev: Vec<usize> = Vec::new();
    prev.push(0);
    let mut j: usize = 0;
    while j < blen
        invariant
            j <= blen == b@.len(),
            prev@.len() == j + 1,
            forall|k: int| 0 <= k <= j ==> #[trigger] prev@[k] == k,
        decreases blen - j,
    {
        prev.push(j + 1);
        j += 1;
    }
    proof {
        assert forall|k: int| 0 <= k <= blen implies #[trigger] prev@[k] == lev(
            a@.take(0),
            b@.take(k),
        ) by {
            assert(a@.take(0).len() == 0);
        }
    }
    let mut i: usize = 0;
    while i < a.len()
        invariant
            i <= a@.len(),
            alen == a@.len(),
            blen == b@.len(),
            prev@.len() == blen + 1,
            forall|k: int| 0 <= k <= blen ==> #[trigger] prev@[k] == lev(a@.take(i as int), b@.take(k)),
        decreases a.len() - i,
    {
        let ghost ai = a@.take(i as int);
        let ghost ai1 = a@.take(i + 1);
        assert(ai1.drop_last() =~= ai);
        assert(ai1.last() == a@[i as int]);
        let mut cur: Vec<usize> = Vec::new();
        cur.push(i + 1);
        assert(b@.take(0).len() == 0);
        let mut j: usize = 0;
        while j < blen
            invariant
                i < a@.len(),
                alen == a@.len(),
                j <= blen == b@.len(),
                prev@.len() == blen + 1,
                ai == a@.take(i as int),
                ai1 == a@.take(i + 1),
                ai1.drop_last() == ai,
                ai1.last() == a@[i as int],
                forall|k: int| 0 <= k <= blen ==> #[trigger] prev@[k] == lev(ai, b@.take(k)),
                cur@.len() == j + 1,
                forall|k: int| 0 <= k <= j ==> #[trigger] cur@[k] == lev(ai1, b@.take(k)),
            decreases blen - j,
        {
            let ghost bj1 = b@.take(j + 1);
            assert(bj1.drop_last() =~= b@.take(j as int));
            assert(bj1.last() == b@[j as int]);
            let cost: usize = if a[i] == b[j] {
                0
            } else {
                1
            };
            proof {
                lemma_lev_bound(ai1, bj1);
            }
            let x = prev[j + 1];
            let y = cur[j];
            let z = prev[j];
            proof {
                assert(prev@[j + 1] == lev(ai, bj1));
                assert(cur@[j as int] == lev(ai1, b@.take(j as int)));
                assert(prev@[j as int] == lev(ai, b@.take(j as int)));
                assert(ai1.len() > 0 && bj1.len() > 0);
                assert(lev(ai1, bj1) == min3(
                    lev(ai, bj1) + 1int,
                    lev(ai1, b@.take(j as int)) + 1int,
                    lev(ai, b@.take(j as int)) + cost,
                ));
                assert(lev(ai1, bj1) <= usize::MAX);
            }
            let best = x.min(y).saturating_add(1).min(z.saturating_add(cost));
            assert(best == lev(ai1, bj1));
            cur.push(best);
            j += 1;
        }
        prev = cur;
        i += 1;
    }
    assert(a@.take(a@.len() as int) =~= a@);
    assert(b@.take(blen as int) =~= b@);
    prev[blen]
}

/// The existing key closest to `missing`, for a "did you mean" hint.
fn nearest_key(entries: &Vec<(String, Node)>, missing: &String) -> (r: Option<String>)
    ensures
        crate::error::opt_view(r) == nearest(entry_models(entries@), missing@),
{
    let ghost es = entry_models(entries@);
    let target = to_chars(missing.as_str());
    let mut best: Option<(usize, usize)> = None;
    let mut i: usize = 0;
    while i < entries.len()
        invariant
            i <= entries@.len(),
            es == entry_models(entries@),
            target@ == missing@,
            match best {
                None => nearest(es.take(i as int), missing@) is None,
                Some((bi, bd)) => bi < i && nearest(es.take(i as int), missing@) == Some(
                    es[bi as int].0,
                ) && bd == lev(es[bi as int].0, missing@),
            },
        decreases entries.len() - i,
    {
        assert(es.take(i + 1).drop_last() =~= es.take(i as int));
        assert(es.take(i + 1).last() == es[i as int]);
        let key = to_chars(entries[i].0.as_str());
        let d = levenshtein(&key, &target);
        if d <= 3 {
            match best {
                None => {
                    best = Some((i, d));
                },
                Some((_, bd)) => {
                    if d < bd {
                        best = Some((i, d));
                    }
                },
            }
        }
        i += 1;
    }
    assert(es.take(entries@.len() as int) =~= es);
    match best {
        None => None,
        Some((bi, _)) => Some(entries[bi].0.clone()),
    }
}

// ---------------------------------------------------------------------------
// The meaning of a path on a document
// ---------------------------------------------------------------------------

/// The error for an absent object key.
pub open spec fn missing_key(display: Seq<char>, es: Seq<(Seq<char>, Json)>, k: Seq<char>) -> Failure {
    Failure::PathNotFound { path: display, hint: nearest(es, k) }
}

/// The error for an index past the end of an array of `len` elements.
pub open spec fn missing_index(display: Seq<char>, len: nat) -> Failure {
    Failure::PathNotFound {
        path: display,
        hint: Some("array has "@ + decimal(len) + " element(s)"@),
    }
}

/// The error for a step applied to the wrong kind of value.
pub open spec fn wrong_kind(display: Seq<char>, expected: Seq<char>, found: Json) -> Failure {
    Failure::TypeMismatch { path: display, expected, found: kind_name(found) }
}

/// `root` pruned to the path `steps`, keeping its nesting, as a piece of
/// `root`; `None` when the path is absent and `allow` (skip missing paths)
/// is set.
pub open spec fn prune_spec(root: Json, steps: Seq<Step>, display: Seq<char>, allow: bool) -> Result<
    Option<Piece>,
    Failure,
>
    decreases steps.len(), 1nat, 0nat,
{
    if steps.len() == 0 {
        Ok(Some(Piece::Whole(root)))
    } else {
        let rest = steps.drop_first();
        match steps[0] {
            Step::Key(k) => match root {
                Json::Object(es) => match lookup(es, k) {
                    Some(child) => match prune_spec(child, rest, display, allow) {
                        Err(e) => Err(e),
                        Ok(None) => Ok(None),
                        Ok(Some(p)) => Ok(Some(Piece::Obj(seq![(k, p)]))),
                    },
                    None => if allow {
                        Ok(None)
                    } else {
                        Err(missing_key(display, es, k))
                    },
                },
                _ => if allow {
                    Ok(None)
                } else {
                    Err(wrong_kind(display, "an object"@, root))
                },
            },
            Step::Index(i) => match root {
                Json::Array(a) => if i < a.len() {
                    match prune_spec(a[i as int], rest, display, allow) {
                        Err(e) => Err(e),
                        Ok(None) => Ok(None),
                        Ok(Some(p)) => Ok(Some(Piece::Arr(seq![(i, p)]))),
                    }
                } else if allow {
                    Ok(None)
                } else {
                    Err(missing_index(display, a.len()))
                },
                _ => if allow {
                    Ok(None)
                } else {
                    Err(wrong_kind(display, "an array"@, root))
                },
            },
            Step::Iter => match root {
                Json::Array(a) => match prune_each(a, rest, display, allow) {
                    Err(e) => Err(e),
                    Ok(xs) => Ok(Some(Piece::Arr(xs))),
                },
                _ => if allow {
                    Ok(None)
                } else {
                    Err(wrong_kind(display, "an array"@, root))
                },
            },
        }
    }
}

/// Every element of `a` pruned to `rest`, with its index, dropping absent
/// ones; the first error in element order wins.
pub open spec fn prune_each(a: Seq<Json>, rest: Seq<Step>, display: Seq<char>, allow: bool) -> Result<
    Seq<(nat, Piece)>,
    Failure,
>
    decreases rest.len() + 1, 0nat, a.len(),
{
    if a.len() == 0 {
        Ok(Seq::empty())
    } else {
        match prune_each(a.drop_last(), rest, display, allow) {
            Err(e) => Err(e),
            Ok(xs) => match prune_spec(a.last(), rest, display, allow) {
                Err(e) => Err(e),
                Ok(None) => Ok(xs),
                Ok(Some(p)) => Ok(xs.push(((a.len() - 1) as nat, p))),
            },
        }
    }
}

/// The leaf values that the path `steps` selects in `root`, in document
/// order (every `[]` expanded).
pub open spec fn select_spec(root: Json, steps: Seq<Step>, display: Seq<char>, allow: bool) -> Result<
    Seq<Json>,
    Failure,
>
    decreases steps.len(), 1nat, 0nat,
{
    if steps.len() == 0 {
        Ok(seq![root])
    } else {
        let rest = steps.drop_first();
        match steps[0] {
            Step::Key(k) => match root {
                Json::Object(es) => match lookup(es, k) {
                    Some(child) => select_spec(child, rest, display, allow),
                    None => if allow {
                        Ok(Seq::empty())
                    } else {
                        Err(missing_key(display, es, k))
                    },
                },
                _ => if allow {
                    Ok(Seq::empty())
                } else {
                    Err(wrong_kind(display, "an object"@, root))
                },
            },
            Step::Index(i) => match root {
                Json::Array(a) => if i < a.len() {
                    select_spec(a[i as int], rest, display, allow)
                } else if allow {
                    Ok(Seq::empty())
                } else {
                    Err(missing_index(display, a.len()))
                },
                _ => if allow {
                    Ok(Seq::empty())
                } else {
                    Err(wrong_kind(display, "an array"@, root))
                },
            },
            Step::Iter => match root {
                Json::Array(a) => select_each(a, rest, display, allow),
                _ => if allow {
                    Ok(Seq::empty())
                } else {
                    Err(wrong_kind(display, "an array"@, root))
                },
            },
        }
    }
}

/// The concatenated selections of `rest` in every element of `a`.
pub open spec fn select_each(a: Seq<Json>, rest: Seq<Step>, display: Seq<char>, allow: bool) -> Result<
    Seq<Json>,
    Failure,
>
    decreases rest.len() + 1, 0nat, a.len(),
{
    if a.len() == 0 {
        Ok(Seq::empty())
    } else {
        match select_each(a.drop_last(), rest, display, allow) {
            Err(e) => Err(e),
            Ok(xs) => match select_spec(a.last(), rest, display, allow) {
                Err(e) => Err(e),
                Ok(ys) => Ok(xs + ys),
            },
        }
    }
}

/// A pruned document: a value kept whole, or an object or array that keeps
/// only some members; an array member keeps its index in the source array,
/// so that pieces of one array are merged by index.
pub enum Piece {
    Whole(Json),
    Obj(Seq<(Seq<char>, Piece)>),
    Arr(Seq<(nat, Piece)>),
}

/// The document that a piece stands for: the kept members, in order.
pub open spec fn piece_json(p: Piece) -> Json
    decreases p,
{
    match p {
        Piece::Whole(x) => x,
        Piece::Obj(es) => Json::Object(
            Seq::new(
                es.len(),
                |i: int|
                    if 0 <= i < es.len() {
                        (es[i].0, piece_json(es[i].1))
                    } else {
                        (Seq::empty(), Json::Null)
                    },
            ),
        ),
        Piece::Arr(xs) => Json::Array(
            Seq::new(
                xs.len(),
                |i: int|
                    if 0 <= i < xs.len() {
                        piece_json(xs[i].1)
                    } else {
                        Json::Null
                    },
            ),
        ),
    }
}

/// Deep merge of two pieces of one document: a whole value holds every
/// piece of it; objects merge key by key and arrays index by index, both in
/// ascending order.
pub open spec fn merge_spec(a: Piece, b: Piece) -> Piece
    decreases b, 0nat,
{
    match (a, b) {
        (Piece::Whole(x), _) => Piece::Whole(x),
        (_, Piece::Whole(y)) => Piece::Whole(y),
        (Piece::Obj(ea), Piece::Obj(eb)) => Piece::Obj(merge_members(ea, eb)),
        (Piece::Arr(xa), Piece::Arr(xb)) => Piece::Arr(merge_items(xa, xb)),
        _ => b,
    }
}

/// Members of two objects merged in ascending key order; a key present in
/// both holds the merge of its two pieces.
pub open spec fn merge_members(ea: Seq<(Seq<char>, Piece)>, eb: Seq<(Seq<char>, Piece)>) -> Seq<
    (Seq<char>, Piece),
>
    decreases eb, ea.len(),
{
    if ea.len() == 0 {
        eb
    } else if eb.len() == 0 {
        ea
    } else if key_lt(ea[0].0, eb[0].0) {
        seq![ea[0]] + merge_members(ea.drop_first(), eb)
    } else if key_lt(eb[0].0, ea[0].0) {
        seq![eb[0]] + merge_members(ea, eb.drop_first())
    } else {
        seq![(ea[0].0, merge_spec(ea[0].1, eb[0].1))] + merge_members(
            ea.drop_first(),
            eb.drop_first(),
        )
    }
}

/// Members of two arrays merged in ascending index order; an index present
/// in both holds the merge of its two pieces.
pub open spec fn merge_items(xa: Seq<(nat, Piece)>, xb: Seq<(nat, Piece)>) -> Seq<(nat, Piece)>
    decreases xb, xa.len(),
{
    if xa.len() == 0 {
        xb
    } else if xb.len() == 0 {
        xa
    } else if xa[0].0 < xb[0].0 {
        seq![xa[0]] + merge_items(xa.drop_first(), xb)
    } else if xb[0].0 < xa[0].0 {
        seq![xb[0]] + merge_items(xa, xb.drop_first())
    } else {
        seq![(xa[0].0, merge_spec(xa[0].1, xb[0].1))] + merge_items(
            xa.drop_first(),
            xb.drop_first(),
        )
    }
}

/// The text of a list of paths: their displays joined by commas.
pub open spec fn paths_text(paths: Seq<PathModel>) -> Seq<char>
    decreases paths.len(),
{
    if paths.len() == 0 {
        Seq::empty()
    } else if paths.len() == 1 {
        paths[0].display
    } else {
        paths_text(paths.drop_last()) + seq![','] + paths.last().display
    }
}

/// The failure when a projection selects nothing: no match.
pub open spec fn no_match(paths: Seq<PathModel>) -> Failure {
    Failure::PathNotFound { path: paths_text(paths), hint: None }
}

/// Prunes `root` to each path in turn and merges the pieces.
pub open spec fn structured_acc(root: Json, paths: Seq<PathModel>, allow: bool) -> Result<
    Option<Piece>,
    Failure,
>
    decreases paths.len(),
{
    if paths.len() == 0 {
        Ok(None)
    } else {
        match structured_acc(root, paths.drop_last(), allow) {
            Err(e) => Err(e),
            Ok(acc) => match prune_spec(root, paths.last().steps, paths.last().display, allow) {
                Err(e) => Err(e),
                Ok(None) => Ok(acc),
                Ok(Some(p)) => Ok(
                    Some(
                        match acc {
                            Some(x) => merge_spec(x, p),
                            None => p,
                        },
                    ),
                ),
            },
        }
    }
}

/// The structure-preserving projection of `root` on `paths`: the merged
/// pieces, or no match when nothing is selected.
pub open spec fn structured_spec(root: Json, paths: Seq<PathModel>, allow: bool) -> Result<
    Json,
    Failure,
> {
    match structured_acc(root, paths, allow) {
        Err(e) => Err(e),
        Ok(None) => Err(no_match(paths)),
        Ok(Some(p)) => Ok(piece_json(p)),
    }
}

/// The value that flat output stores for a path whose selection is `values`.
pub open spec fn flat_value(steps: Seq<Step>, values: Seq<Json>) -> Json {
    if has_iter_step(steps) || values.len() != 1 {
        Json::Array(values)
    } else {
        values[0]
    }
}

/// The entries of the flat projection of `root` on `paths`.
pub open spec fn flat_acc(root: Json, paths: Seq<PathModel>, allow: bool) -> Result<
    Seq<(Seq<char>, Json)>,
    Failure,
>
    decreases paths.len(),
{
    if paths.len() == 0 {
        Ok(Seq::empty())
    } else {
        match flat_acc(root, paths.drop_last(), allow) {
            Err(e) => Err(e),
            Ok(obj) => {
                let p = paths.last();
                match select_spec(root, p.steps, p.display, allow) {
                    Err(e) => Err(e),
                    Ok(values) => match last_key(p.steps) {
                        None => Err(
                            Failure::PathSyntax {
                                path: p.display,
                                message: "--flat needs a named field, but this path has no key"@,
                            },
                        ),
                        Some(name) => if !has_iter_step(p.steps) && values.len() == 0 {
                            Ok(obj)
                        } else if has_key(obj, name) {
                            Err(Failure::NameCollision { name })
                        } else {
                            Ok(insert_entry(obj, (name, flat_value(p.steps, values))))
                        },
                    },
                }
            },
        }
    }
}

/// The flat projection: an object mapping each path's leaf name to its
/// value, or no match when it would be empty.
pub open spec fn flat_spec(root: Json, paths: Seq<PathModel>, allow: bool) -> Result<Json, Failure> {
    match flat_acc(root, paths, allow) {
        Err(e) => Err(e),
        Ok(obj) => if obj.len() == 0 {
            Err(no_match(paths))
        } else {
            Ok(Json::Object(obj))
        },
    }
}

/// Each value paired with the text of the path that selected it.
pub open spec fn tagged(display: Seq<char>, vs: Seq<Json>) -> Seq<(Seq<char>, Json)> {
    vs.map_values(|v: Json| (display, v))
}

/// Every selected value of every path, tagged with the path's text, in path
/// then document order.
pub open spec fn select_all_spec(root: Json, paths: Seq<PathModel>, allow: bool) -> Result<
    Seq<(Seq<char>, Json)>,
    Failure,
>
    decreases paths.len(),
{
    if paths.len() == 0 {
        Ok(Seq::empty())
    } else {
        match select_all_spec(root, paths.drop_last(), allow) {
            Err(e) => Err(e),
            Ok(xs) => {
                let p = paths.last();
                match select_spec(root, p.steps, p.display, allow) {
                    Err(e) => Err(e),
                    Ok(vs) => Ok(xs + tagged(p.display, vs)),
                }
            },
        }
    }
}

// ---------------------------------------------------------------------------
// Folds: an error in a prefix is the error of the whole
// ---------------------------------------------------------------------------

proof fn lemma_prune_each_error(a: Seq<Json>, rest: Seq<Step>, display: Seq<char>, allow: bool, k: int)
    requires
        0 <= k <= a.len(),
        prune_each(a.take(k), rest, display, allow) is Err,
    ensures
        prune_each(a, rest, display, allow) == prune_each(a.take(k), rest, display, allow),
    decreases a.len() - k,
{
    if k < a.len() {
        assert(a.take(k + 1).drop_last() =~= a.take(k));
        lemma_prune_each_error(a, rest, display, allow, k + 1);
    } else {
        assert(a.take(k) =~= a);
    }
}

proof fn lemma_select_each_error(a: Seq<Json>, rest: Seq<Step>, display: Seq<char>, allow: bool, k: int)
    requires
        0 <= k <= a.len(),
        select_each(a.take(k), rest, display, allow) is Err,
    ensures
        select_each(a, rest, display, allow) == select_each(a.take(k), rest, display, allow),
    decreases a.len() - k,
{
    if k < a.len() {
        assert(a.take(k + 1).drop_last() =~= a.take(k));
        lemma_select_each_error(a, rest, display, allow, k + 1);
    } else {
        assert(a.take(k) =~= a);
    }
}

proof fn lemma_structured_error(root: Json, ps: Seq<PathModel>, allow: bool, k: int)
    requires
        0 <= k <= ps.len(),
        structured_acc(root, ps.take(k), allow) is Err,
    ensures
        structured_acc(root, ps, allow) == structured_acc(root, ps.take(k), allow),
    decreases ps.len() - k,
{
    if k < ps.len() {
        assert(ps.take(k + 1).drop_last() =~= ps.take(k));
        lemma_structured_error(root, ps, allow, k + 1);
    } else {
        assert(ps.take(k) =~= ps);
    }
}

proof fn lemma_flat_error(root: Json, ps: Seq<PathModel>, allow: bool, k: int)
    requires
        0 <= k <= ps.len(),
        flat_acc(root, ps.take(k), allow) is Err,
    ensures
        flat_acc(root, ps, allow) == flat_acc(root, ps.take(k), allow),
    decreases ps.len() - k,
{
    if k < ps.len() {
        assert(ps.take(k + 1).drop_last() =~= ps.take(k));
        lemma_flat_error(root, ps, allow, k + 1);
    } else {
        assert(ps.take(k) =~= ps);
    }
}

proof fn lemma_select_all_error(root: Json, ps: Seq<PathModel>, allow: bool, k: int)
    requires
        0 <= k <= ps.len(),
        select_all_spec(root, ps.take(k), allow) is Err,
    ensures
        select_all_spec(root, ps, allow) == select_all_spec(root, ps.take(k), allow),
    decreases ps.len() - k,
{
    if k < ps.len() {
        assert(ps.take(k + 1).drop_last() =~= ps.take(k));
        lemma_select_all_error(root, ps, allow, k + 1);
    } else {
        assert(ps.take(k) =~= ps);
    }
}

// ---------------------------------------------------------------------------
// Implementation
// ---------------------------------------------------------------------------

/// A pruned document (see [`Piece`]).
pub enum PieceNode {
    Whole(Node),
    Obj(Vec<(String, PieceNode)>),
    Arr(Vec<(usize, PieceNode)>),
}

pub open spec fn piece_model(p: PieceNode) -> Piece
    decreases p,
{
    match p {
        PieceNode::Whole(v) => Piece::Whole(v@),
        PieceNode::Obj(es) => Piece::Obj(members_model(es@)),
        PieceNode::Arr(xs) => Piece::Arr(items_model(xs@)),
    }
}

pub open spec fn members_model(es: Seq<(String, PieceNode)>) -> Seq<(Seq<char>, Piece)>
    decreases es,
{
    Seq::new(
        es.len(),
        |i: int|
            if 0 <= i < es.len() {
                (es[i].0@, piece_model(es[i].1))
            } else {
                (Seq::empty(), Piece::Whole(Json::Null))
            },
    )
}

pub open spec fn items_model(xs: Seq<(usize, PieceNode)>) -> Seq<(nat, Piece)>
    decreases xs,
{
    Seq::new(
        xs.len(),
        |i: int|
            if 0 <= i < xs.len() {
                (xs[i].0 as nat, piece_model(xs[i].1))
            } else {
                (0nat, Piece::Whole(Json::Null))
            },
    )
}

impl View for PieceNode {
    type V = Piece;

    open spec fn view(&self) -> Piece {
        piece_model(*self)
    }
}

pub open spec fn opt_piece(o: Option<PieceNode>) -> Option<Piece> {
    match o {
        Some(v) => Some(v@),
        None => None,
    }
}

pub open spec fn pruned_view(r: Result<Option<PieceNode>, DotpickError>) -> Result<
    Option<Piece>,
    Failure,
> {
    match r {
        Ok(o) => Ok(opt_piece(o)),
        Err(e) => Err(e@),
    }
}


pub open spec fn values_view(r: Result<Vec<Node>, DotpickError>) -> Result<Seq<Json>, Failure> {
    match r {
        Ok(vs) => Ok(models(vs@)),
        Err(e) => Err(e@),
    }
}

pub open spec fn value_view(r: Result<Node, DotpickError>) -> Result<Json, Failure> {
    match r {
        Ok(v) => Ok(v@),
        Err(e) => Err(e@),
    }
}

pub open spec fn tagged_view(r: Result<Vec<(String, Node)>, DotpickError>) -> Result<
    Seq<(Seq<char>, Json)>,
    Failure,
> {
    match r {
        Ok(vs) => Ok(entry_models(vs@)),
        Err(e) => Err(e@),
    }
}

/// The steps of `segs` from position `pos` on.
pub open spec fn steps_from(segs: Seq<Segment>, pos: int) -> Seq<Step> {
    steps_of_segments(segs).skip(pos)
}

fn not_found_key(display: &String, entries: &Vec<(String, Node)>, k: &String) -> (r: DotpickError)
    ensures
        r@ == missing_key(display@, entry_models(entries@), k@),
{
    DotpickError::PathNotFound { path: display.clone(), hint: nearest_key(entries, k) }
}

fn not_found_index(display: &String, len: usize) -> (r: DotpickError)
    ensures
        r@ == missing_index(display@, len as nat),
{
    let mut hint = owned("array has ");
    push_decimal(&mut hint, len);
    hint.append(" element(s)");
    DotpickError::PathNotFound { path: display.clone(), hint: Some(hint) }
}

fn mismatch(allow_missing: bool, display: &String, expected: &str, found: &Node) -> (r: Result<
    Option<PieceNode>,
    DotpickError,
>)
    ensures
        pruned_view(r) == if allow_missing {
            Ok::<Option<Piece>, Failure>(None)
        } else {
            Err(wrong_kind(display@, expected@, found@))
        },
{
    if allow_missing {
        Ok(None)
    } else {
        Err(
            DotpickError::TypeMismatch {
                path: display.clone(),
                expected: owned(expected),
                found: owned(value_type_name(found)),
            },
        )
    }
}

fn mismatch_vec(allow_missing: bool, display: &String, expected: &str, found: &Node) -> (r: Result<
    Vec<Node>,
    DotpickError,
>)
    ensures
        values_view(r) == if allow_missing {
            Ok::<Seq<Json>, Failure>(Seq::empty())
        } else {
            Err(wrong_kind(display@, expected@, found@))
        },
{
    if allow_missing {
        let v: Vec<Node> = Vec::new();
        assert(models(v@) =~= Seq::<Json>::empty());
        Ok(v)
    } else {
        Err(
            DotpickError::TypeMismatch {
                path: display.clone(),
                expected: owned(expected),
                found: owned(value_type_name(found)),
            },
        )
    }
}

proof fn lemma_steps_from(segs: Seq<Segment>, pos: int)
    requires
        0 <= pos < segs.len(),
    ensures
        steps_from(segs, pos).len() > 0,
        steps_from(segs, pos)[0] == segs[pos]@,
        steps_from(segs, pos).drop_first() == steps_from(segs, pos + 1),
{
    assert(steps_from(segs, pos).drop_first() =~= steps_from(segs, pos + 1));
}

/// Prune `root` to the path `segs[pos..]`, preserving structure.
/// Returns `None` when the path is absent and `allow_missing` is set.
fn prune(
    root: &Node,
    segs: &Vec<Segment>,
    pos: usize,
    display: &String,
    allow_missing: bool,
) -> (r: Result<Option<PieceNode>, DotpickError>)
    requires
        pos <= segs@.len(),
    ensures
        pruned_view(r) == prune_spec(root@, steps_from(segs@, pos as int), display@, allow_missing),
    decreases segs@.len() - pos,
{
    let n = segs.len();
    if pos >= n {
        assert(steps_from(segs@, pos as int).len() == 0);
        return Ok(Some(PieceNode::Whole(root.deep_copy())));
    }
    proof {
        lemma_steps_from(segs@, pos as int);
    }
    match &segs[pos] {
        Segment::Key(k) => match root {
            Node::Object(entries) => match find_key(entries, k) {
                Some(idx) => {
                    let ghost es = entry_models(entries@);
                    assert(es[idx as int] == (entries@[idx as int].0@, model(entries@[idx as int].1)));
                    match prune(&entries[idx].1, segs, pos + 1, display, allow_missing) {
                        Err(e) => Err(e),
                        Ok(None) => Ok(None),
                        Ok(Some(p)) => {
                            let mut obj: Vec<(String, PieceNode)> = Vec::new();
                            obj.push((k.clone(), p));
                            assert(members_model(obj@) =~= seq![(k@, p@)]);
                            Ok(Some(PieceNode::Obj(obj)))
                        },
                    }
                },
                None => {
                    if allow_missing {
                        Ok(None)
                    } else {
                        Err(not_found_key(display, entries, k))
                    }
                },
            },
            other => mismatch(allow_missing, display, "an object", other),
        },
        Segment::Index(i) => match root {
            Node::Array(a) => {
                if *i < a.len() {
                    assert(models(a@)[*i as int] == model(a@[*i as int]));
                    match prune(&a[*i], segs, pos + 1, display, allow_missing) {
                        Err(e) => Err(e),
                        Ok(None) => Ok(None),
                        Ok(Some(p)) => {
                            let mut arr: Vec<(usize, PieceNode)> = Vec::new();
                            arr.push((*i, p));
                            assert(items_model(arr@) =~= seq![(*i as nat, p@)]);
                            Ok(Some(PieceNode::Arr(arr)))
                        },
                    }
                } else if allow_missing {
                    Ok(None)
                } else {
                    Err(not_found_index(display, a.len()))
                }
            },
            other => mismatch(allow_missing, display, "an array", other),
        },
        Segment::Iter => match root {
            Node::Array(a) => {
                let ghost rest = steps_from(segs@, pos + 1);
                let ghost am = models(a@);
                let mut out: Vec<(usize, PieceNode)> = Vec::new();
                let mut i: usize = 0;
                assert(am.take(0) =~= Seq::<Json>::empty());
                assert(items_model(out@) =~= Seq::<(nat, Piece)>::empty());
                while i < a.len()
                    invariant
                        i <= a@.len(),
                        pos < segs@.len(),
                        n == segs@.len(),
                        *root == Node::Array(*a),
                        steps_from(segs@, pos as int).len() > 0,
                        steps_from(segs@, pos as int)[0] == Step::Iter,
                        steps_from(segs@, pos as int).drop_first() == rest,
                        rest == steps_from(segs@, pos + 1),
                        am == models(a@),
                        prune_each(am.take(i as int), rest, display@, allow_missing) == Ok::<
                            Seq<(nat, Piece)>,
                            Failure,
                        >(items_model(out@)),
                    decreases a.len() - i,
                {
                    assert(am.take(i + 1).drop_last() =~= am.take(i as int));
                    assert(am.take(i + 1).last() == model(a@[i as int]));
                    match prune(&a[i], segs, pos + 1, display, allow_missing) {
                        Err(e) => {
                            proof {
                                assert(prune_each(am.take(i + 1), rest, display@, allow_missing) == Err::<
                                    Seq<(nat, Piece)>,
                                    Failure,
                                >(e@));
                                lemma_prune_each_error(am, rest, display@, allow_missing, i + 1);
                            }
                            return Err(e);
                        },
                        Ok(None) => {},
                        Ok(Some(p)) => {
                            let ghost before = out@;
                            out.push((i, p));
                            assert(items_model(out@) =~= items_model(before).push((i as nat, p@)));
                        },
                    }
                    i += 1;
                }
                assert(am.take(a@.len() as int) =~= am);
                Ok(Some(PieceNode::Arr(out)))
            },
            other => mismatch(allow_missing, display, "an array", other),
        },
    }
}

/// Collect bare leaf values for the path `segs[pos..]` (expanding every `[]`).
fn select(
    root: &Node,
    segs: &Vec<Segment>,
    pos: usize,
    display: &String,
    allow_missing: bool,
) -> (r: Result<Vec<Node>, DotpickError>)
    requires
        pos <= segs@.len(),
    ensures
        values_view(r) == select_spec(root@, steps_from(segs@, pos as int), display@, allow_missing),
    decreases segs@.len() - pos,
{
    let n = segs.len();
    if pos >= n {
        assert(steps_from(segs@, pos as int).len() == 0);
        let mut v: Vec<Node> = Vec::new();
        v.push(root.deep_copy());
        assert(models(v@) =~= seq![root@]);
        return Ok(v);
    }
    proof {
        lemma_steps_from(segs@, pos as int);
    }
    match &segs[pos] {
        Segment::Key(k) => match root {
            Node::Object(entries) => match find_key(entries, k) {
                Some(idx) => {
                    let ghost es = entry_models(entries@);
                    assert(es[idx as int] == (entries@[idx as int].0@, model(entries@[idx as int].1)));
                    select(&entries[idx].1, segs, pos + 1, display, allow_missing)
                },
                None => {
                    if allow_missing {
                        let v: Vec<Node> = Vec::new();
                        assert(models(v@) =~= Seq::<Json>::empty());
                        Ok(v)
                    } else {
                        Err(not_found_key(display, entries, k))
                    }
                },
            },
            other => mismatch_vec(allow_missing, display, "an object", other),
        },
        Segment::Index(i) => match root {
            Node::Array(a) => {
                if *i < a.len() {
                    assert(models(a@)[*i as int] == model(a@[*i as int]));
                    select(&a[*i], segs, pos + 1, display, allow_missing)
                } else if allow_missing {
                    let v: Vec<Node> = Vec::new();
                    assert(models(v@) =~= Seq::<Json>::empty());
                    Ok(v)
                } else {
                    Err(not_found_index(display, a.len()))
                }
            },
            other => mismatch_vec(allow_missing, display, "an array", other),
        },
        Segment::Iter => match root {
            Node::Array(a) => {
                let ghost rest = steps_from(segs@, pos + 1);
                let ghost am = models(a@);
                let mut out: Vec<Node> = Vec::new();
                let mut i: usize = 0;
                assert(am.take(0) =~= Seq::<Json>::empty());
                assert(models(out@) =~= Seq::<Json>::empty());
                while i < a.len()
                    invariant
                        i <= a@.len(),
                        pos < segs@.len(),
                        n == segs@.len(),
                        *root == Node::Array(*a),
                        steps_from(segs@, pos as int).len() > 0,
                        steps_from(segs@, pos as int)[0] == Step::Iter,
                        steps_from(segs@, pos as int).drop_first() == rest,
                        rest == steps_from(segs@, pos + 1),
                        am == models(a@),
                        select_each(am.take(i as int), rest, display@, allow_missing) == Ok::<
                            Seq<Json>,
                            Failure,
                        >(models(out@)),
                    decreases a.len() - i,
                {
                    assert(am.take(i + 1).drop_last() =~= am.take(i as int));
                    assert(am.take(i + 1).last() == model(a@[i as int]));
                    match select(&a[i], segs, pos + 1, display, allow_missing) {
                        Err(e) => {
                            proof {
                                assert(select_each(am.take(i + 1), rest, display@, allow_missing) == Err::<
                                    Seq<Json>,
                                    Failure,
                                >(e@));
                                lemma_select_each_error(am, rest, display@, allow_missing, i + 1);
                            }
                            return Err(e);
                        },
                        Ok(found) => {
                            append_values(&mut out, found);
                        },
                    }
                    i += 1;
                }
                assert(am.take(a@.len() as int) =~= am);
                Ok(out)
            },
            other => mismatch_vec(allow_missing, display, "an array", other),
        },
    }
}

/// Moves the values of `more` to the end of `out`.
fn append_values(out: &mut Vec<Node>, more: Vec<Node>)
    ensures
        models(final(out)@) == models(old(out)@) + models(more@),
{
    let mut more = more;
    let ghost start = out@;
    let ghost extra = more@;
    out.append(&mut more);
    assert(models(out@) =~= models(start) + models(extra));
}

/// A copy of a piece.
fn piece_copy(p: &PieceNode) -> (r: PieceNode)
    ensures
        r@ == p@,
    decreases p,
{
    match p {
        PieceNode::Whole(v) => PieceNode::Whole(v.deep_copy()),
        PieceNode::Obj(es) => {
            let mut out: Vec<(String, PieceNode)> = Vec::new();
            let mut i: usize = 0;
            assert(members_model(out@) =~= members_model(es@).take(0));
            while i < es.len()
                invariant
                    i <= es@.len(),
                    *p == PieceNode::Obj(*es),
                    members_model(out@) == members_model(es@).take(i as int),
                decreases es.len() - i,
            {
                proof {
                    assert(decreases_to!(*p => (*p)->Obj_0));
                    assert(decreases_to!(*es => es@));
                    assert(decreases_to!(es@ => es@[i as int]));
                    assert(decreases_to!(es@[i as int] => es@[i as int].1));
                }
                let c = piece_copy(&es[i].1);
                let k = es[i].0.clone();
                let ghost before = out@;
                out.push((k, c));
                assert(out@ == before.push((k, c)));
                assert(members_model(es@)[i as int] == (es@[i as int].0@, es@[i as int].1@));
                assert(members_model(out@) =~= members_model(before).push((k@, c@)));
                assert(members_model(out@) =~= members_model(es@).take(i + 1));
                i += 1;
            }
            assert(members_model(es@).take(es@.len() as int) =~= members_model(es@));
            PieceNode::Obj(out)
        },
        PieceNode::Arr(xs) => {
            let mut out: Vec<(usize, PieceNode)> = Vec::new();
            let mut i: usize = 0;
            assert(items_model(out@) =~= items_model(xs@).take(0));
            while i < xs.len()
                invariant
                    i <= xs@.len(),
                    *p == PieceNode::Arr(*xs),
                    items_model(out@) == items_model(xs@).take(i as int),
                decreases xs.len() - i,
            {
                proof {
                    assert(decreases_to!(*p => (*p)->Arr_0));
                    assert(decreases_to!(*xs => xs@));
                    assert(decreases_to!(xs@ => xs@[i as int]));
                    assert(decreases_to!(xs@[i as int] => xs@[i as int].1));
                }
                let c = piece_copy(&xs[i].1);
                let ghost before = out@;
                out.push((xs[i].0, c));
                assert(items_model(xs@)[i as int] == (xs@[i as int].0 as nat, xs@[i as int].1@));
                assert(items_model(out@) =~= items_model(before).push((xs@[i as int].0 as nat, c@)));
                assert(items_model(out@) =~= items_model(xs@).take(i + 1));
                i += 1;
            }
            assert(items_model(xs@).take(xs@.len() as int) =~= items_model(xs@));
            PieceNode::Arr(out)
        },
    }
}

/// The document that a piece stands for.
fn piece_to_node(p: &PieceNode) -> (r: Node)
    ensures
        r@ == piece_json(p@),
    decreases p,
{
    match p {
        PieceNode::Whole(v) => v.deep_copy(),
        PieceNode::Obj(es) => {
            let ghost ms = members_model(es@);
            let mut out: Vec<(String, Node)> = Vec::new();
            let mut i: usize = 0;
            while i < es.len()
                invariant
                    i <= es@.len(),
                    *p == PieceNode::Obj(*es),
                    ms == members_model(es@),
                    out@.len() == i,
                    forall|j: int|
                        0 <= j < i ==> (#[trigger] out@[j]).0@ == ms[j].0 && model(out@[j].1)
                            == piece_json(ms[j].1),
                decreases es.len() - i,
            {
                proof {
                    assert(decreases_to!(*p => (*p)->Obj_0));
                    assert(decreases_to!(*es => es@));
                    assert(decreases_to!(es@ => es@[i as int]));
                    assert(decreases_to!(es@[i as int] => es@[i as int].1));
                }
                let c = piece_to_node(&es[i].1);
                out.push((es[i].0.clone(), c));
                i += 1;
            }
            let r = Node::Object(out);
            assert(entry_models(out@) =~= piece_json(p@)->Object_0);
            r
        },
        PieceNode::Arr(xs) => {
            let ghost ms = items_model(xs@);
            let mut out: Vec<Node> = Vec::new();
            let mut i: usize = 0;
            while i < xs.len()
                invariant
                    i <= xs@.len(),
                    *p == PieceNode::Arr(*xs),
                    ms == items_model(xs@),
                    out@.len() == i,
                    forall|j: int| 0 <= j < i ==> model(#[trigger] out@[j]) == piece_json(ms[j].1),
                decreases xs.len() - i,
            {
                proof {
                    assert(decreases_to!(*p => (*p)->Arr_0));
                    assert(decreases_to!(*xs => xs@));
                    assert(decreases_to!(xs@ => xs@[i as int]));
                    assert(decreases_to!(xs@[i as int] => xs@[i as int].1));
                }
                let c = piece_to_node(&xs[i].1);
                out.push(c);
                i += 1;
            }
            let r = Node::Array(out);
            assert(models(out@) =~= piece_json(p@)->Array_0);
            r
        },
    }
}

/// Deep merge of two pieces of one document.
fn merge(a: &PieceNode, b: &PieceNode) -> (r: PieceNode)
    ensures
        r@ == merge_spec(a@, b@),
    decreases b,
{
    match (a, b) {
        (PieceNode::Whole(x), _) => PieceNode::Whole(x.deep_copy()),
        (_, PieceNode::Whole(y)) => PieceNode::Whole(y.deep_copy()),
        (PieceNode::Obj(ea), PieceNode::Obj(eb)) => {
            let ghost ma = members_model(ea@);
            let ghost mb = members_model(eb@);
            let mut out: Vec<(String, PieceNode)> = Vec::new();
            let mut i: usize = 0;
            let mut j: usize = 0;
            assert(ma.skip(0) =~= ma && mb.skip(0) =~= mb);
            assert(members_model(out@) + merge_members(ma, mb) =~= merge_members(ma, mb));
            while i < ea.len() || j < eb.len()
                invariant
                    i <= ea@.len(),
                    j <= eb@.len(),
                    *b == PieceNode::Obj(*eb),
                    ma == members_model(ea@),
                    mb == members_model(eb@),
                    members_model(out@) + merge_members(ma.skip(i as int), mb.skip(j as int))
                        == merge_members(ma, mb),
                decreases ea.len() - i + eb.len() - j,
            {
                let ghost sa = ma.skip(i as int);
                let ghost sb = mb.skip(j as int);
                let ghost before = members_model(out@);
                if i == ea.len() {
                    assert(sb[0] == mb[j as int]);
                    assert(sb.drop_first() =~= mb.skip(j + 1));
                    assert(merge_members(sa, sb) == sb);
                    assert(merge_members(sa, mb.skip(j + 1)) == mb.skip(j + 1));
                    let c = piece_copy(&eb[j].1);
                    out.push((eb[j].0.clone(), c));
                    assert(members_model(out@) =~= before.push(sb[0]));
                    assert(before + sb =~= before.push(sb[0]) + mb.skip(j + 1));
                    j += 1;
                } else if j == eb.len() {
                    assert(sa[0] == ma[i as int]);
                    assert(sa.drop_first() =~= ma.skip(i + 1));
                    assert(merge_members(sa, sb) == sa);
                    assert(merge_members(ma.skip(i + 1), sb) =~= ma.skip(i + 1));
                    let c = piece_copy(&ea[i].1);
                    out.push((ea[i].0.clone(), c));
                    assert(members_model(out@) =~= before.push(sa[0]));
                    assert(before + sa =~= before.push(sa[0]) + ma.skip(i + 1));
                    i += 1;
                } else {
                    assert(sa[0] == ma[i as int]);
                    assert(sb[0] == mb[j as int]);
                    assert(sa.drop_first() =~= ma.skip(i + 1));
                    assert(sb.drop_first() =~= mb.skip(j + 1));
                    if key_less(&ea[i].0, &eb[j].0) {
                        let c = piece_copy(&ea[i].1);
                        out.push((ea[i].0.clone(), c));
                        assert(members_model(out@) =~= before.push(sa[0]));
                        assert(before + (seq![sa[0]] + merge_members(ma.skip(i + 1), sb))
                            =~= before.push(sa[0]) + merge_members(ma.skip(i + 1), sb));
                        i += 1;
                    } else if key_less(&eb[j].0, &ea[i].0) {
                        let c = piece_copy(&eb[j].1);
                        out.push((eb[j].0.clone(), c));
                        assert(members_model(out@) =~= before.push(sb[0]));
                        assert(before + (seq![sb[0]] + merge_members(sa, mb.skip(j + 1)))
                            =~= before.push(sb[0]) + merge_members(sa, mb.skip(j + 1)));
                        j += 1;
                    } else {
                        proof {
                            assert(decreases_to!(*b => (*b)->Obj_0));
                            assert(decreases_to!(*eb => eb@));
                            assert(decreases_to!(eb@ => eb@[j as int]));
                            assert(decreases_to!(eb@[j as int] => eb@[j as int].1));
                        }
                        let m = merge(&ea[i].1, &eb[j].1);
                        let e = (ea[i].0.clone(), m);
                        let ghost x = (sa[0].0, merge_spec(sa[0].1, sb[0].1));
                        out.push(e);
                        assert(members_model(out@) =~= before.push(x));
                        assert(before + (seq![x] + merge_members(ma.skip(i + 1), mb.skip(j + 1)))
                            =~= before.push(x) + merge_members(ma.skip(i + 1), mb.skip(j + 1)));
                        i += 1;
                        j += 1;
                    }
                }
            }
            assert(ma.skip(ea@.len() as int) =~= Seq::<(Seq<char>, Piece)>::empty());
            assert(mb.skip(eb@.len() as int) =~= Seq::<(Seq<char>, Piece)>::empty());
            assert(members_model(out@) + Seq::<(Seq<char>, Piece)>::empty() =~= members_model(
                out@,
            ));
            PieceNode::Obj(out)
        },
        (PieceNode::Arr(xa), PieceNode::Arr(xb)) => {
            let ghost ma = items_model(xa@);
            let ghost mb = items_model(xb@);
            let mut out: Vec<(usize, PieceNode)> = Vec::new();
            let mut i: usize = 0;
            let mut j: usize = 0;
            assert(ma.skip(0) =~= ma && mb.skip(0) =~= mb);
            assert(items_model(out@) + merge_items(ma, mb) =~= merge_items(ma, mb));
            while i < xa.len() || j < xb.len()
                invariant
                    i <= xa@.len(),
                    j <= xb@.len(),
                    *b == PieceNode::Arr(*xb),
                    ma == items_model(xa@),
                    mb == items_model(xb@),
                    items_model(out@) + merge_items(ma.skip(i as int), mb.skip(j as int))
                        == merge_items(ma, mb),
                decreases xa.len() - i + xb.len() - j,
            {
                let ghost sa = ma.skip(i as int);
                let ghost sb = mb.skip(j as int);
                let ghost before = items_model(out@);
                if i == xa.len() {
                    assert(sb[0] == mb[j as int]);
                    assert(sb.drop_first() =~= mb.skip(j + 1));
                    assert(merge_items(sa, sb) == sb);
                    assert(merge_items(sa, mb.skip(j + 1)) == mb.skip(j + 1));
                    let c = piece_copy(&xb[j].1);
                    out.push((xb[j].0, c));
                    assert(items_model(out@) =~= before.push(sb[0]));
                    assert(before + sb =~= before.push(sb[0]) + mb.skip(j + 1));
                    j += 1;
                } else if j == xb.len() {
                    assert(sa[0] == ma[i as int]);
                    assert(sa.drop_first() =~= ma.skip(i + 1));
                    assert(merge_items(sa, sb) == sa);
                    assert(merge_items(ma.skip(i + 1), sb) =~= ma.skip(i + 1));
                    let c = piece_copy(&xa[i].1);
                    out.push((xa[i].0, c));
                    assert(items_model(out@) =~= before.push(sa[0]));
                    assert(before + sa =~= before.push(sa[0]) + ma.skip(i + 1));
                    i += 1;
                } else {
                    assert(sa[0] == ma[i as int]);
                    assert(sb[0] == mb[j as int]);
                    assert(sa.drop_first() =~= ma.skip(i + 1));
                    assert(sb.drop_first() =~= mb.skip(j + 1));
                    if xa[i].0 < xb[j].0 {
                        let c = piece_copy(&xa[i].1);
                        out.push((xa[i].0, c));
                        assert(items_model(out@) =~= before.push(sa[0]));
                        assert(before + (seq![sa[0]] + merge_items(ma.skip(i + 1), sb))
                            =~= before.push(sa[0]) + merge_items(ma.skip(i + 1), sb));
                        i += 1;
                    } else if xb[j].0 < xa[i].0 {
                        let c = piece_copy(&xb[j].1);
                        out.push((xb[j].0, c));
                        assert(items_model(out@) =~= before.push(sb[0]));
                        assert(before + (seq![sb[0]] + merge_items(sa, mb.skip(j + 1)))
                            =~= before.push(sb[0]) + merge_items(sa, mb.skip(j + 1)));
                        j += 1;
                    } else {
                        proof {
                            assert(decreases_to!(*b => (*b)->Arr_0));
                            assert(decreases_to!(*xb => xb@));
                            assert(decreases_to!(xb@ => xb@[j as int]));
                            assert(decreases_to!(xb@[j as int] => xb@[j as int].1));
                        }
                        let m = merge(&xa[i].1, &xb[j].1);
                        let e = (xa[i].0, m);
                        let ghost x = (sa[0].0, merge_spec(sa[0].1, sb[0].1));
                        out.push(e);
                        assert(items_model(out@) =~= before.push(x));
                        assert(before + (seq![x] + merge_items(ma.skip(i + 1), mb.skip(j + 1)))
                            =~= before.push(x) + merge_items(ma.skip(i + 1), mb.skip(j + 1)));
                        i += 1;
                        j += 1;
                    }
                }
            }
            assert(ma.skip(xa@.len() as int) =~= Seq::<(nat, Piece)>::empty());
            assert(mb.skip(xb@.len() as int) =~= Seq::<(nat, Piece)>::empty());
            assert(items_model(out@) + Seq::<(nat, Piece)>::empty() =~= items_model(out@));
            PieceNode::Arr(out)
        },
        _ => piece_copy(b),
    }
}

/// The no-match error for `paths`: nothing was selected.
pub(crate) fn no_match_error(paths: &[Path]) -> (r: DotpickError)
    ensures
        r@ == no_match(crate::path::paths_view(paths@)),
{
    let ghost pv = crate::path::paths_view(paths@);
    let mut text = String::new();
    let mut i: usize = 0;
    assert(pv.take(0) =~= Seq::<PathModel>::empty());
    while i < paths.len()
        invariant
            i <= paths@.len(),
            pv == crate::path::paths_view(paths@),
            text@ == paths_text(pv.take(i as int)),
        decreases paths.len() - i,
    {
        let ghost t = pv.take(i + 1);
        assert(t.drop_last() =~= pv.take(i as int));
        assert(t.last() == paths@[i as int]@);
        if i > 0 {
            push_char(&mut text, ',');
        } else {
            assert(text@ =~= Seq::<char>::empty());
        }
        text.append(paths[i].display.as_str());
        assert(text@ =~= paths_text(t));
        i += 1;
    }
    assert(pv.take(paths@.len() as int) =~= pv);
    DotpickError::PathNotFound { path: text, hint: None }
}

/// Structure-preserving projection across all paths, merged into one value.
pub fn structured(root: &Node, paths: &[Path], allow_missing: bool) -> (r: Result<
    Node,
    DotpickError,
>)
    ensures
        value_view(r) == structured_spec(root@, crate::path::paths_view(paths@), allow_missing),
{
    let ghost pv = crate::path::paths_view(paths@);
    let mut acc: Option<PieceNode> = None;
    let mut i: usize = 0;
    assert(pv.take(0) =~= Seq::<PathModel>::empty());
    while i < paths.len()
        invariant
            i <= paths@.len(),
            pv == crate::path::paths_view(paths@),
            structured_acc(root@, pv.take(i as int), allow_missing) == Ok::<
                Option<Piece>,
                Failure,
            >(opt_piece(acc)),
        decreases paths.len() - i,
    {
        let p = &paths[i];
        assert(pv.take(i + 1).drop_last() =~= pv.take(i as int));
        assert(pv.take(i + 1).last() == p@);
        assert(steps_from(p.segments@, 0) =~= p@.steps);
        match prune(root, &p.segments, 0, &p.display, allow_missing) {
            Err(e) => {
                proof {
                    lemma_structured_error(root@, pv, allow_missing, i + 1);
                }
                return Err(e);
            },
            Ok(None) => {},
            Ok(Some(pruned)) => {
                acc = Some(
                    match acc {
                        Some(existing) => merge(&existing, &pruned),
                        None => pruned,
                    },
                );
            },
        }
        i += 1;
    }
    assert(pv.take(paths@.len() as int) =~= pv);
    match acc {
        Some(p) => Ok(piece_to_node(&p)),
        None => Err(no_match_error(paths)),
    }
}

/// Flat projection: an object mapping each path's leaf name to its value.
pub fn flat(root: &Node, paths: &[Path], allow_missing: bool) -> (r: Result<Node, DotpickError>)
    ensures
        value_view(r) == flat_spec(root@, crate::path::paths_view(paths@), allow_missing),
{
    let ghost pv = crate::path::paths_view(paths@);
    let mut obj: Vec<(String, Node)> = Vec::new();
    let mut i: usize = 0;
    assert(pv.take(0) =~= Seq::<PathModel>::empty());
    assert(entry_models(obj@) =~= Seq::<(Seq<char>, Json)>::empty());
    while i < paths.len()
        invariant
            i <= paths@.len(),
            pv == crate::path::paths_view(paths@),
            flat_acc(root@, pv.take(i as int), allow_missing) == Ok::<
                Seq<(Seq<char>, Json)>,
                Failure,
            >(entry_models(obj@)),
        decreases paths.len() - i,
    {
        let p = &paths[i];
        assert(pv.take(i + 1).drop_last() =~= pv.take(i as int));
        assert(pv.take(i + 1).last() == p@);
        assert(steps_from(p.segments@, 0) =~= p@.steps);
        let values = match select(root, &p.segments, 0, &p.display, allow_missing) {
            Err(e) => {
                proof {
                    lemma_flat_error(root@, pv, allow_missing, i + 1);
                }
                return Err(e);
            },
            Ok(values) => values,
        };
        let name = match p.leaf_name() {
            Some(name) => owned(name),
            None => {
                proof {
                    lemma_flat_error(root@, pv, allow_missing, i + 1);
                }
                return Err(
                    DotpickError::PathSyntax {
                        path: p.display.clone(),
                        message: owned("--flat needs a named field, but this path has no key"),
                    },
                );
            },
        };
        let iterates = p.has_iter();
        if !iterates && values.len() == 0 {
            i += 1;
            continue ;
        }
        let ghost vals = models(values@);
        let value = if iterates || values.len() != 1 {
            Node::Array(values)
        } else {
            let mut values = values;
            let only = values.pop().unwrap();
            assert(only@ == vals[0]);
            only
        };
        assert(value@ == flat_value(p@.steps, vals));
        match find_key(&obj, &name) {
            Some(_) => {
                proof {
                    crate::value::lemma_key_index(entry_models(obj@), name@);
                    lemma_flat_error(root@, pv, allow_missing, i + 1);
                }
                return Err(DotpickError::NameCollision { name });
            },
            None => {
                proof {
                    crate::value::lemma_key_index(entry_models(obj@), name@);
                }
                let ghost before = entry_models(obj@);
                let pos = insert_position(&obj, &name);
                proof {
                    lemma_insert_pos(before, name@);
                }
                obj.insert(pos, (name, value));
                assert(entry_models(obj@) =~= insert_entry(before, (name@, value@)));
            },
        }
        i += 1;
    }
    assert(pv.take(paths@.len() as int) =~= pv);
    if obj.len() == 0 {
        return Err(no_match_error(paths));
    }
    Ok(Node::Object(obj))
}

/// Bare leaf values for every match of every path, in path then document order.
pub fn select_all(root: &Node, paths: &[Path], allow_missing: bool) -> (r: Result<
    Vec<(String, Node)>,
    DotpickError,
>)
    ensures
        tagged_view(r) == select_all_spec(root@, crate::path::paths_view(paths@), allow_missing),
{
    let ghost pv = crate::path::paths_view(paths@);
    let mut out: Vec<(String, Node)> = Vec::new();
    let mut i: usize = 0;
    assert(pv.take(0) =~= Seq::<PathModel>::empty());
    assert(entry_models(out@) =~= Seq::<(Seq<char>, Json)>::empty());
    while i < paths.len()
        invariant
            i <= paths@.len(),
            pv == crate::path::paths_view(paths@),
            select_all_spec(root@, pv.take(i as int), allow_missing) == Ok::<
                Seq<(Seq<char>, Json)>,
                Failure,
            >(entry_models(out@)),
        decreases paths.len() - i,
    {
        let p = &paths[i];
        assert(pv.take(i + 1).drop_last() =~= pv.take(i as int));
        assert(pv.take(i + 1).last() == p@);
        assert(steps_from(p.segments@, 0) =~= p@.steps);
        let values = match select(root, &p.segments, 0, &p.display, allow_missing) {
            Err(e) => {
                proof {
                    lemma_select_all_error(root@, pv, allow_missing, i + 1);
                }
                return Err(e);
            },
            Ok(values) => values,
        };
        let ghost start = entry_models(out@);
        let ghost vals = models(values@);
        let mut j: usize = 0;
        while j < values.len()
            invariant
                j <= values@.len(),
                vals == models(values@),
                entry_models(out@) == start + tagged(p.display@, vals.take(j as int)),
            decreases values.len() - j,
        {
            let ghost before = entry_models(out@);
            let copy = values[j].deep_copy();
            assert(copy@ == vals[j as int]);
            out.push((p.display.clone(), copy));
            assert(entry_models(out@) =~= before.push((p.display@, vals[j as int])));
            assert(vals.take(j + 1) =~= vals.take(j as int).push(vals[j as int]));
            assert(tagged(p.display@, vals.take(j + 1)) =~= tagged(p.display@, vals.take(j as int)).push(
                (p.display@, vals[j as int]),
            ));
            assert(entry_models(out@) =~= start + tagged(p.display@, vals.take(j + 1)));
            j += 1;
        }
        assert(vals.take(values@.len() as int) =~= vals);
        assert(entry_models(out@) =~= start + tagged(p.display@, vals));
        i += 1;
    }
    assert(pv.take(paths@.len() as int) =~= pv);
    Ok(out)
}

} // verus!
