//! Laws of reading NDJSON: one record per non-blank line, in order, and a
//! malformed line named by its number.

use crate::error::Failure;
use crate::input::{json_read, line_state, ndjson_message, ndjson_records, strip_cr, text_lines};
use crate::text::{all_ws, decimal};
use crate::value::Json;
use vstd::prelude::*;

verus! {

/// Lines that are all blank give no record.
pub proof fn lemma_blank_lines_give_no_records(lines: Seq<Seq<char>>)
    requires
        forall|i: int| 0 <= i < lines.len() ==> all_ws(#[trigger] lines[i]),
    ensures
        ndjson_records(lines) == Ok::<Seq<Json>, Failure>(Seq::empty()),
    decreases lines.len(),
{
    if lines.len() > 0 {
        let init = lines.drop_last();
        assert forall|i: int| 0 <= i < init.len() implies all_ws(#[trigger] init[i]) by {
            assert(init[i] == lines[i]);
        }
        lemma_blank_lines_give_no_records(init);
        assert(all_ws(lines[lines.len() - 1]));
    }
}

/// Lines none of which is blank, each a JSON document, give one record per
/// line, in order: the document the line holds.
pub proof fn lemma_each_line_is_a_record(lines: Seq<Seq<char>>)
    requires
        forall|i: int| 0 <= i < lines.len() ==> !all_ws(#[trigger] lines[i]),
        forall|i: int| 0 <= i < lines.len() ==> json_read(#[trigger] lines[i]) is Ok,
    ensures
        ndjson_records(lines) == Ok::<Seq<Json>, Failure>(
            Seq::new(lines.len(), |i: int| json_read(lines[i])->Ok_0),
        ),
    decreases lines.len(),
{
    if lines.len() == 0 {
        assert(Seq::new(0, |i: int| json_read(lines[i])->Ok_0) =~= Seq::<Json>::empty());
    } else {
        let init = lines.drop_last();
        let n = lines.len() - 1;
        assert forall|i: int| 0 <= i < init.len() implies !all_ws(#[trigger] init[i]) && json_read(
            init[i],
        ) is Ok by {
            assert(init[i] == lines[i]);
        }
        lemma_each_line_is_a_record(init);
        assert(!all_ws(lines[n]));
        assert(json_read(lines[n]) is Ok);
        assert(Seq::new(init.len(), |i: int| json_read(init[i])->Ok_0).push(
            json_read(lines[n])->Ok_0,
        ) =~= Seq::new(lines.len(), |i: int| json_read(lines[i])->Ok_0));
    }
}

/// The first non-blank line that is not a JSON document makes reading
/// fail, with a parse error that names the line by its number, counting
/// from 1 (blank lines count too).
pub proof fn lemma_first_bad_line_is_named(lines: Seq<Seq<char>>, k: int)
    requires
        0 <= k < lines.len(),
        !all_ws(lines[k]),
        json_read(lines[k]) is Err,
        forall|i: int| 0 <= i < k ==> all_ws(#[trigger] lines[i]) || json_read(lines[i]) is Ok,
    ensures
        ndjson_records(lines) == Err::<Seq<Json>, Failure>(
            Failure::Parse {
                format: "ndjson"@,
                message: ndjson_message((k + 1) as nat, json_read(lines[k])->Err_0),
            },
        ),
        ndjson_message((k + 1) as nat, json_read(lines[k])->Err_0) == "line "@ + decimal(
            (k + 1) as nat,
        ) + ": "@ + json_read(lines[k])->Err_0,
    decreases lines.len(),
{
    lemma_prefix_reads(lines, k);
    let pre = lines.take(k + 1);
    assert(pre.drop_last() =~= lines.take(k));
    assert(pre.last() == lines[k]);
    lemma_error_stays(lines, k + 1);
}

proof fn lemma_prefix_reads(lines: Seq<Seq<char>>, k: int)
    requires
        0 <= k <= lines.len(),
        forall|i: int| 0 <= i < k ==> all_ws(#[trigger] lines[i]) || json_read(lines[i]) is Ok,
    ensures
        ndjson_records(lines.take(k)) is Ok,
    decreases k,
{
    if k > 0 {
        lemma_prefix_reads(lines, k - 1);
        let pre = lines.take(k);
        assert(pre.drop_last() =~= lines.take(k - 1));
        assert(pre.last() == lines[k - 1]);
        assert(all_ws(lines[k - 1]) || json_read(lines[k - 1]) is Ok);
    }
}

proof fn lemma_error_stays(lines: Seq<Seq<char>>, k: int)
    requires
        0 <= k <= lines.len(),
        ndjson_records(lines.take(k)) is Err,
    ensures
        ndjson_records(lines) == ndjson_records(lines.take(k)),
    decreases lines.len() - k,
{
    if k < lines.len() {
        assert(lines.take(k + 1).drop_last() =~= lines.take(k));
        lemma_error_stays(lines, k + 1);
    } else {
        assert(lines.take(k) =~= lines);
    }
}

/// Lines each ended by a line feed.
pub open spec fn terminated(ls: Seq<Seq<char>>) -> Seq<char>
    decreases ls.len(),
{
    if ls.len() == 0 {
        Seq::empty()
    } else {
        terminated(ls.drop_last()) + ls.last() + seq!['\n']
    }
}

proof fn lemma_line_run(prefix: Seq<char>, l: Seq<char>)
    requires
        forall|i: int| 0 <= i < l.len() ==> #[trigger] l[i] != '\n',
    ensures
        line_state(prefix + l).lines == line_state(prefix).lines,
        line_state(prefix + l).cur == line_state(prefix).cur + l,
    decreases l.len(),
{
    if l.len() == 0 {
        assert(prefix + l =~= prefix);
        assert(line_state(prefix).cur + l =~= line_state(prefix).cur);
    } else {
        let init = l.drop_last();
        assert forall|i: int| 0 <= i < init.len() implies #[trigger] init[i] != '\n' by {
            assert(init[i] == l[i]);
        }
        lemma_line_run(prefix, init);
        assert((prefix + l).drop_last() =~= prefix + init);
        assert((prefix + l).last() == l[l.len() - 1]);
        assert((line_state(prefix).cur + init).push(l.last()) =~= line_state(prefix).cur + l);
    }
}

proof fn lemma_terminated_state(ls: Seq<Seq<char>>)
    requires
        forall|k: int, i: int| 0 <= k < ls.len() && 0 <= i < ls[k].len() ==> #[trigger] ls[k][i] != '\n',
    ensures
        line_state(terminated(ls)).lines == Seq::new(ls.len(), |k: int| strip_cr(ls[k])),
        line_state(terminated(ls)).cur == Seq::<char>::empty(),
    decreases ls.len(),
{
    if ls.len() == 0 {
        assert(Seq::new(0, |k: int| strip_cr(ls[k])) =~= Seq::<Seq<char>>::empty());
    } else {
        let init = ls.drop_last();
        let l = ls.last();
        assert forall|k: int, i: int| 0 <= k < init.len() && 0 <= i < init[k].len() implies #[trigger] init[k][i]
            != '\n' by {
            assert(init[k] == ls[k]);
        }
        assert forall|i: int| 0 <= i < l.len() implies #[trigger] l[i] != '\n' by {
            assert(ls[ls.len() - 1][i] != '\n');
        }
        lemma_terminated_state(init);
        let p = terminated(init);
        lemma_line_run(p, l);
        let t = p + l + seq!['\n'];
        assert(t.drop_last() =~= p + l);
        assert(t.last() == '\n');
        assert(Seq::<char>::empty() + l =~= l);
        assert(Seq::new(init.len(), |k: int| strip_cr(init[k])).push(strip_cr(l)) =~= Seq::new(
            ls.len(),
            |k: int| strip_cr(ls[k]),
        ));
    }
}

/// A text of lines each ended by a line feed (or by a carriage return and a
/// line feed) reads as those lines, in order, without their line endings.
pub proof fn lemma_text_lines_are_its_lines(ls: Seq<Seq<char>>)
    requires
        forall|k: int, i: int| 0 <= k < ls.len() && 0 <= i < ls[k].len() ==> #[trigger] ls[k][i] != '\n',
    ensures
        text_lines(terminated(ls)) == Seq::new(ls.len(), |k: int| strip_cr(ls[k])),
{
    lemma_terminated_state(ls);
}

/// A line loses the carriage return that ends it, and nothing else.
pub proof fn lemma_carriage_return_before_line_feed_is_dropped(l: Seq<char>)
    ensures
        strip_cr(l.push('\r')) == l,
        l.len() == 0 || l.last() != '\r' ==> strip_cr(l) == l,
{
    assert(l.push('\r').drop_last() =~= l);
}

} // verus!
