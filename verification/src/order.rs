//! Laws of the order in which object keys are kept: character by
//! character, a prefix first.

use crate::value::key_lt;
use vstd::prelude::*;

verus! {

/// A key comes before every longer key that it begins.
pub proof fn lemma_prefix_comes_first(a: Seq<char>, b: Seq<char>)
    requires
        a.len() < b.len(),
        b.take(a.len() as int) == a,
    ensures
        key_lt(a, b),
        !key_lt(b, a),
    decreases a.len(),
{
    if a.len() > 0 {
        assert(b[0] == b.take(a.len() as int)[0]);
        assert(b.drop_first().take(a.len() - 1) =~= a.drop_first()) by {
            assert forall|i: int| 0 <= i < a.len() - 1 implies #[trigger] b.drop_first().take(
                a.len() - 1,
            )[i] == a.drop_first()[i] by {
                assert(b.take(a.len() as int)[i + 1] == a[i + 1]);
            }
        }
        lemma_prefix_comes_first(a.drop_first(), b.drop_first());
    }
}

/// Of two keys that agree up to a position and differ there, the one with
/// the smaller character there comes first.
pub proof fn lemma_first_difference_decides(a: Seq<char>, b: Seq<char>, i: int)
    requires
        0 <= i < a.len(),
        i < b.len(),
        a.take(i) == b.take(i),
        a[i] < b[i],
    ensures
        key_lt(a, b),
        !key_lt(b, a),
    decreases i,
{
    if i > 0 {
        assert(a[0] == a.take(i)[0] && b[0] == b.take(i)[0]);
        assert(a.drop_first().take(i - 1) =~= b.drop_first().take(i - 1)) by {
            assert forall|j: int| 0 <= j < i - 1 implies #[trigger] a.drop_first().take(i - 1)[j]
                == b.drop_first().take(i - 1)[j] by {
                assert(a.take(i)[j + 1] == b.take(i)[j + 1]);
                assert(a.take(i)[j + 1] == a[j + 1] && b.take(i)[j + 1] == b[j + 1]);
                assert(a.drop_first().take(i - 1)[j] == a[j + 1]);
                assert(b.drop_first().take(i - 1)[j] == b[j + 1]);
            }
        }
        lemma_first_difference_decides(a.drop_first(), b.drop_first(), i - 1);
    }
}

} // verus!
