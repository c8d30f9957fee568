//! Laws of trimming: what `trim` removes is whitespace, and what it keeps
//! neither starts nor ends with whitespace.

use crate::text::{
    all_ws, is_ws, lead_ws, lemma_lead_ws_bounds, lemma_trail_ws_bounds, trail_ws, trim,
    trim_start,
};
use vstd::prelude::*;

verus! {

/// Trimming keeps a middle part of the text, drops only whitespace around
/// it, and the part it keeps is empty or starts and ends with a character
/// that is not whitespace.
pub proof fn lemma_trim_drops_only_surrounding_whitespace(s: Seq<char>)
    ensures
        exists|i: int, j: int|
            0 <= i <= j <= s.len() && trim(s) == #[trigger] s.subrange(i, j) && all_ws(s.take(i))
                && all_ws(s.skip(j)),
        trim(s).len() > 0 ==> !is_ws(trim(s)[0]) && !is_ws(trim(s).last()),
{
    lemma_lead_ws_bounds(s);
    let i = lead_ws(s) as int;
    let u = trim_start(s);
    lemma_trail_ws_bounds(u);
    let j = i + u.len() - trail_ws(u);
    assert(trim(s) =~= s.subrange(i, j));
    assert forall|k: int| 0 <= k < s.take(i).len() implies #[trigger] is_ws(s.take(i)[k]) by {
        assert(s.take(i)[k] == s[k]);
    }
    assert forall|k: int| 0 <= k < s.skip(j).len() implies #[trigger] is_ws(s.skip(j)[k]) by {
        assert(s.skip(j)[k] == u[j - i + k]);
    }
    if trim(s).len() > 0 {
        assert(trim(s)[0] == s[i]);
        assert(trim(s).last() == u[u.len() - trail_ws(u) - 1]);
    }
}

} // verus!
