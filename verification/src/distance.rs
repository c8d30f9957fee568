//! Laws of the edit distance behind the "nearest existing key" hint.

use crate::project::lev;
use vstd::prelude::*;

verus! {

/// A text is at distance 0 from itself.
pub proof fn lemma_lev_same(a: Seq<char>)
    ensures
        lev(a, a) == 0,
    decreases a.len(),
{
    if a.len() > 0 {
        lemma_lev_same(a.drop_last());
    }
}

/// From or to the empty text, the distance is the other text's length.
pub proof fn lemma_lev_empty(a: Seq<char>)
    ensures
        lev(a, Seq::empty()) == a.len(),
        lev(Seq::empty(), a) == a.len(),
{
}

/// The distance does not depend on the order of the two texts.
pub proof fn lemma_lev_symmetric(a: Seq<char>, b: Seq<char>)
    ensures
        lev(a, b) == lev(b, a),
    decreases a.len() + b.len(),
{
    if a.len() > 0 && b.len() > 0 {
        lemma_lev_symmetric(a.drop_last(), b);
        lemma_lev_symmetric(a, b.drop_last());
        lemma_lev_symmetric(a.drop_last(), b.drop_last());
    }
}

/// One substitution, one insertion or one deletion at the end is at most
/// distance 1.
pub proof fn lemma_lev_one_edit(s: Seq<char>, x: char, y: char)
    ensures
        lev(s.push(x), s.push(y)) <= 1,
        lev(s.push(x), s.push(x)) == 0,
        lev(s, s.push(y)) <= 1,
        lev(s.push(x), s) <= 1,
{
    lemma_lev_same(s);
    lemma_lev_same(s.push(x));
    assert(s.push(x).drop_last() =~= s);
    assert(s.push(y).drop_last() =~= s);
    if s.len() > 0 {
        assert(s.push(y).last() == y);
    }
}

} // verus!
