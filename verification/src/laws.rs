//! Properties that hold of every document and every path.

use crate::error::Failure;
use crate::output::{
    collapse_spec, json_text, ndjson_lines, raw_lines, raw_lines_of, raw_text, render_spec,
    toml_write, yaml_write,
};
use crate::path::{
    class_run, digits_value, has_iter_step, in_class, is_digit_char, last_key, lemma_class_run_exact,
    parse_all, parse_one_spec, parse_paths_spec, prepend, split_parts, steps_of, CharClass,
    PathModel, Step,
};
use crate::project::{
    flat_acc, flat_spec, flat_value, lev, merge_items, merge_members, merge_spec, nearest, no_match,
    paths_text, piece_json, prune_each, prune_spec, select_all_spec, select_each, select_spec,
    structured_acc, structured_spec, tagged, Piece,
};
use crate::project_records;
use crate::text::{
    is_ws, lead_ws, lemma_lead_ws_exact, lemma_trail_ws_exact, lemma_trim_end_ends_in_text, trail_ws,
    trim,
};
use crate::value::{
    distinct_keys, has_key, insert_entry, insert_pos, key_index, key_lt, lemma_insert_entry_lookup,
    lemma_insert_entry_sorted, lemma_insert_pos, lemma_key_index, lemma_key_index_distinct,
    lemma_key_lt_irreflexive, lemma_key_lt_total, lemma_key_lt_transitive, lemma_sorted_keys_distinct,
    kind_name, lookup, scalar, sorted_json, sorted_keys, well_formed, Json,
};
use crate::{default_output_spec, run_spec, InputFormat, OutputFormat, Request};
use vstd::prelude::*;

verus! {

// ---------------------------------------------------------------------------
// Skipping missing paths never fails
// ---------------------------------------------------------------------------

/// With missing paths skipped, pruning to a path never fails.
pub proof fn lemma_prune_allow_missing_never_fails(root: Json, steps: Seq<Step>, display: Seq<char>)
    ensures
        prune_spec(root, steps, display, true) is Ok,
    decreases steps.len(), 1nat, 0nat,
{
    if steps.len() > 0 {
        let rest = steps.drop_first();
        match steps[0] {
            Step::Key(k) => {
                if let Json::Object(es) = root {
                    if let Some(child) = lookup(es, k) {
                        lemma_prune_allow_missing_never_fails(child, rest, display);
                    }
                }
            },
            Step::Index(i) => {
                if let Json::Array(a) = root {
                    if i < a.len() {
                        lemma_prune_allow_missing_never_fails(a[i as int], rest, display);
                    }
                }
            },
            Step::Iter => {
                if let Json::Array(a) = root {
                    lemma_prune_each_allow_missing_never_fails(a, rest, display);
                }
            },
        }
    }
}

/// With missing paths skipped, pruning every element never fails.
pub proof fn lemma_prune_each_allow_missing_never_fails(
    a: Seq<Json>,
    rest: Seq<Step>,
    display: Seq<char>,
)
    ensures
        prune_each(a, rest, display, true) is Ok,
    decreases rest.len() + 1, 0nat, a.len(),
{
    if a.len() > 0 {
        lemma_prune_each_allow_missing_never_fails(a.drop_last(), rest, display);
        lemma_prune_allow_missing_never_fails(a.last(), rest, display);
    }
}

/// With missing paths skipped, selecting a path never fails.
pub proof fn lemma_select_allow_missing_never_fails(root: Json, steps: Seq<Step>, display: Seq<char>)
    ensures
        select_spec(root, steps, display, true) is Ok,
    decreases steps.len(), 1nat, 0nat,
{
    if steps.len() > 0 {
        let rest = steps.drop_first();
        match steps[0] {
            Step::Key(k) => {
                if let Json::Object(es) = root {
                    if let Some(child) = lookup(es, k) {
                        lemma_select_allow_missing_never_fails(child, rest, display);
                    }
                }
            },
            Step::Index(i) => {
                if let Json::Array(a) = root {
                    if i < a.len() {
                        lemma_select_allow_missing_never_fails(a[i as int], rest, display);
                    }
                }
            },
            Step::Iter => {
                if let Json::Array(a) = root {
                    lemma_select_each_allow_missing_never_fails(a, rest, display);
                }
            },
        }
    }
}

/// With missing paths skipped, selecting in every element never fails.
pub proof fn lemma_select_each_allow_missing_never_fails(
    a: Seq<Json>,
    rest: Seq<Step>,
    display: Seq<char>,
)
    ensures
        select_each(a, rest, display, true) is Ok,
    decreases rest.len() + 1, 0nat, a.len(),
{
    if a.len() > 0 {
        lemma_select_each_allow_missing_never_fails(a.drop_last(), rest, display);
        lemma_select_allow_missing_never_fails(a.last(), rest, display);
    }
}

/// With missing paths skipped, the structured projection never fails.
/// With missing paths skipped, the structured projection fails only when it
/// selects nothing: it gives a document, or the no-match failure.
pub proof fn lemma_structured_allow_missing_fails_only_without_match(root: Json, paths: Seq<PathModel>)
    ensures
        structured_spec(root, paths, true) is Ok || structured_spec(root, paths, true) == Err::<
            Json,
            Failure,
        >(no_match(paths)),
{
    lemma_structured_acc_allow_missing(root, paths);
}

proof fn lemma_structured_acc_allow_missing(root: Json, paths: Seq<PathModel>)
    ensures
        structured_acc(root, paths, true) is Ok,
    decreases paths.len(),
{
    if paths.len() > 0 {
        lemma_structured_acc_allow_missing(root, paths.drop_last());
        lemma_prune_allow_missing_never_fails(root, paths.last().steps, paths.last().display);
    }
}

// ---------------------------------------------------------------------------
// The root path
// ---------------------------------------------------------------------------

/// The root dotpath `.` denotes the whole document, and projecting a
/// document on it gives the document back.
pub proof fn lemma_root_path_is_identity(root: Json, allow: bool)
    ensures
        parse_one_spec("."@) == Ok::<PathModel, Failure>(
            PathModel { steps: Seq::empty(), display: "."@ },
        ),
        structured_spec(
            root,
            seq![PathModel { steps: Seq::empty(), display: "."@ }],
            allow,
        ) == Ok::<Json, Failure>(root),
{
    reveal_strlit(".");
    let s = "."@;
    lemma_lead_ws_exact(s, 0);
    lemma_trail_ws_exact(s.skip(0), 0);
    assert(trim(s) =~= s);
    let ps = seq![PathModel { steps: Seq::empty(), display: "."@ }];
    assert(ps.drop_last() =~= Seq::<PathModel>::empty());
    assert(ps.last().steps.len() == 0);
    assert(structured_acc(root, ps.drop_last(), allow) == Ok::<Option<Piece>, Failure>(None));
    assert(prune_spec(root, ps.last().steps, ps.last().display, allow) == Ok::<
        Option<Piece>,
        Failure,
    >(Some(Piece::Whole(root))));
    assert(structured_acc(root, ps, allow) == Ok::<Option<Piece>, Failure>(
        Some(Piece::Whole(root)),
    ));
}

// ---------------------------------------------------------------------------
// The leading dot
// ---------------------------------------------------------------------------

/// The leading `.` of a dotpath is optional: a trimmed dotpath that does
/// not start with `.` denotes the same steps with a `.` in front, and is
/// valid exactly when that one is.
pub proof fn lemma_leading_dot_is_optional(raw: Seq<char>)
    requires
        raw.len() > 0,
        raw[0] != '.',
        !is_ws(raw[0]),
        !is_ws(raw.last()),
    ensures
        match (parse_one_spec(raw), parse_one_spec(seq!['.'] + raw)) {
            (Ok(p), Ok(q)) => p.steps == q.steps,
            (Err(_), Err(_)) => true,
            _ => false,
        },
{
    reveal_strlit(".");
    let dotted = seq!['.'] + raw;
    lemma_lead_ws_exact(raw, 0);
    lemma_trail_ws_exact(raw.skip(0), 0);
    assert(raw.skip(0) =~= raw);
    assert(trim(raw) =~= raw);
    assert(!is_ws('.')) by {
        assert(('.' as u32) == 46);
    }
    lemma_lead_ws_exact(dotted, 0);
    assert(dotted.skip(0) =~= dotted);
    assert(dotted.last() == raw.last());
    lemma_trail_ws_exact(dotted, 0);
    assert(trim(dotted) =~= dotted);
    assert(dotted.drop_first() =~= raw);
    assert(raw != "."@);
    assert(dotted != "."@) by {
        assert(dotted.len() > 1);
    }
}

// ---------------------------------------------------------------------------
// Skipping changes nothing where nothing is missing
// ---------------------------------------------------------------------------

/// Where pruning without skipping succeeds, pruning with skipping gives the
/// same piece.
pub proof fn lemma_prune_strict_success_agrees(root: Json, steps: Seq<Step>, display: Seq<char>)
    ensures
        prune_spec(root, steps, display, false) is Ok ==> prune_spec(root, steps, display, true)
            == prune_spec(root, steps, display, false),
    decreases steps.len(), 1nat, 0nat,
{
    if steps.len() > 0 {
        let rest = steps.drop_first();
        match steps[0] {
            Step::Key(k) => {
                if let Json::Object(es) = root {
                    if let Some(child) = lookup(es, k) {
                        lemma_prune_strict_success_agrees(child, rest, display);
                    }
                }
            },
            Step::Index(i) => {
                if let Json::Array(a) = root {
                    if i < a.len() {
                        lemma_prune_strict_success_agrees(a[i as int], rest, display);
                    }
                }
            },
            Step::Iter => {
                if let Json::Array(a) = root {
                    lemma_prune_each_strict_success_agrees(a, rest, display);
                }
            },
        }
    }
}

proof fn lemma_prune_each_strict_success_agrees(a: Seq<Json>, rest: Seq<Step>, display: Seq<char>)
    ensures
        prune_each(a, rest, display, false) is Ok ==> prune_each(a, rest, display, true)
            == prune_each(a, rest, display, false),
    decreases rest.len() + 1, 0nat, a.len(),
{
    if a.len() > 0 {
        lemma_prune_each_strict_success_agrees(a.drop_last(), rest, display);
        lemma_prune_strict_success_agrees(a.last(), rest, display);
    }
}

/// Where selecting without skipping succeeds, selecting with skipping gives
/// the same values.
pub proof fn lemma_select_strict_success_agrees(root: Json, steps: Seq<Step>, display: Seq<char>)
    ensures
        select_spec(root, steps, display, false) is Ok ==> select_spec(root, steps, display, true)
            == select_spec(root, steps, display, false),
    decreases steps.len(), 1nat, 0nat,
{
    if steps.len() > 0 {
        let rest = steps.drop_first();
        match steps[0] {
            Step::Key(k) => {
                if let Json::Object(es) = root {
                    if let Some(child) = lookup(es, k) {
                        lemma_select_strict_success_agrees(child, rest, display);
                    }
                }
            },
            Step::Index(i) => {
                if let Json::Array(a) = root {
                    if i < a.len() {
                        lemma_select_strict_success_agrees(a[i as int], rest, display);
                    }
                }
            },
            Step::Iter => {
                if let Json::Array(a) = root {
                    lemma_select_each_strict_success_agrees(a, rest, display);
                }
            },
        }
    }
}

proof fn lemma_select_each_strict_success_agrees(a: Seq<Json>, rest: Seq<Step>, display: Seq<char>)
    ensures
        select_each(a, rest, display, false) is Ok ==> select_each(a, rest, display, true)
            == select_each(a, rest, display, false),
    decreases rest.len() + 1, 0nat, a.len(),
{
    if a.len() > 0 {
        lemma_select_each_strict_success_agrees(a.drop_last(), rest, display);
        lemma_select_strict_success_agrees(a.last(), rest, display);
    }
}

/// A projection that succeeds without skipping missing paths gives the same
/// result with skipping: structured, flat, and the list of selections.
pub proof fn lemma_strict_success_agrees_with_skipping(root: Json, paths: Seq<PathModel>)
    ensures
        structured_spec(root, paths, false) is Ok ==> structured_spec(root, paths, true)
            == structured_spec(root, paths, false),
        flat_spec(root, paths, false) is Ok ==> flat_spec(root, paths, true) == flat_spec(
            root,
            paths,
            false,
        ),
        select_all_spec(root, paths, false) is Ok ==> select_all_spec(root, paths, true)
            == select_all_spec(root, paths, false),
{
    lemma_folds_strict_success_agree(root, paths);
}

proof fn lemma_folds_strict_success_agree(root: Json, paths: Seq<PathModel>)
    ensures
        structured_acc(root, paths, false) is Ok ==> structured_acc(root, paths, true)
            == structured_acc(root, paths, false),
        flat_acc(root, paths, false) is Ok ==> flat_acc(root, paths, true) == flat_acc(
            root,
            paths,
            false,
        ),
        select_all_spec(root, paths, false) is Ok ==> select_all_spec(root, paths, true)
            == select_all_spec(root, paths, false),
    decreases paths.len(),
{
    if paths.len() > 0 {
        let p = paths.last();
        lemma_folds_strict_success_agree(root, paths.drop_last());
        lemma_prune_strict_success_agrees(root, p.steps, p.display);
        lemma_select_strict_success_agrees(root, p.steps, p.display);
    }
}

// ---------------------------------------------------------------------------
// Lists of paths are handled one path after another
// ---------------------------------------------------------------------------

/// Each path's selection, tagged with the path's text, in path order.
pub open spec fn selections(root: Json, paths: Seq<PathModel>, allow: bool) -> Seq<
    Seq<(Seq<char>, Json)>,
> {
    Seq::new(
        paths.len(),
        |k: int|
            tagged(
                paths[k].display,
                select_spec(root, paths[k].steps, paths[k].display, allow)->Ok_0,
            ),
    )
}

proof fn lemma_select_all_fold(root: Json, paths: Seq<PathModel>, allow: bool)
    ensures
        (forall|k: int|
            0 <= k < paths.len() ==> select_spec(
                root,
                (#[trigger] paths[k]).steps,
                paths[k].display,
                allow,
            ) is Ok) ==> select_all_spec(root, paths, allow) == Ok::<
            Seq<(Seq<char>, Json)>,
            Failure,
        >(selections(root, paths, allow).flatten_alt()),
        forall|k: int|
            0 <= k < paths.len() && select_spec(
                root,
                (#[trigger] paths[k]).steps,
                paths[k].display,
                allow,
            ) is Err && (forall|i: int|
                0 <= i < k ==> select_spec(
                    root,
                    (#[trigger] paths[i]).steps,
                    paths[i].display,
                    allow,
                ) is Ok) ==> select_all_spec(root, paths, allow) == Err::<
                Seq<(Seq<char>, Json)>,
                Failure,
            >(select_spec(root, paths[k].steps, paths[k].display, allow)->Err_0),
    decreases paths.len(),
{
    if paths.len() > 0 {
        let init = paths.drop_last();
        let n = paths.len() - 1;
        lemma_select_all_fold(root, init, allow);
        assert forall|k: int| 0 <= k < init.len() implies #[trigger] init[k] == paths[k] by {}
        assert(selections(root, paths, allow).drop_last() =~= selections(root, init, allow));
        if forall|k: int|
            0 <= k < paths.len() ==> select_spec(
                root,
                (#[trigger] paths[k]).steps,
                paths[k].display,
                allow,
            ) is Ok {
            assert forall|k: int| 0 <= k < init.len() implies select_spec(
                root,
                (#[trigger] init[k]).steps,
                init[k].display,
                allow,
            ) is Ok by {
                assert(init[k] == paths[k]);
            }
            assert(select_spec(root, paths[n].steps, paths[n].display, allow) is Ok);
        }
        assert forall|k: int|
            0 <= k < paths.len() && select_spec(
                root,
                (#[trigger] paths[k]).steps,
                paths[k].display,
                allow,
            ) is Err && (forall|i: int|
                0 <= i < k ==> select_spec(
                    root,
                    (#[trigger] paths[i]).steps,
                    paths[i].display,
                    allow,
                ) is Ok) implies select_all_spec(root, paths, allow) == Err::<
            Seq<(Seq<char>, Json)>,
            Failure,
        >(select_spec(root, paths[k].steps, paths[k].display, allow)->Err_0) by {
            if k < n {
                assert(init[k] == paths[k]);
                assert forall|i: int| 0 <= i < k implies select_spec(
                    root,
                    (#[trigger] init[i]).steps,
                    init[i].display,
                    allow,
                ) is Ok by {
                    assert(init[i] == paths[i]);
                }
            } else {
                assert forall|i: int| 0 <= i < init.len() implies select_spec(
                    root,
                    (#[trigger] init[i]).steps,
                    init[i].display,
                    allow,
                ) is Ok by {
                    assert(init[i] == paths[i]);
                }
            }
        }
    }
}

/// Selecting every path is the concatenation, path after path, of each
/// path's selection tagged with the path's text; where some path fails, the
/// first failing path's error is the result.
pub proof fn lemma_select_all_is_concatenation(root: Json, paths: Seq<PathModel>, allow: bool)
    ensures
        (forall|k: int|
            0 <= k < paths.len() ==> select_spec(
                root,
                (#[trigger] paths[k]).steps,
                paths[k].display,
                allow,
            ) is Ok) ==> select_all_spec(root, paths, allow) == Ok::<
            Seq<(Seq<char>, Json)>,
            Failure,
        >(selections(root, paths, allow).flatten()),
        forall|k: int|
            0 <= k < paths.len() && select_spec(
                root,
                (#[trigger] paths[k]).steps,
                paths[k].display,
                allow,
            ) is Err && (forall|i: int|
                0 <= i < k ==> select_spec(
                    root,
                    (#[trigger] paths[i]).steps,
                    paths[i].display,
                    allow,
                ) is Ok) ==> select_all_spec(root, paths, allow) == Err::<
                Seq<(Seq<char>, Json)>,
                Failure,
            >(select_spec(root, paths[k].steps, paths[k].display, allow)->Err_0),
{
    lemma_select_all_fold(root, paths, allow);
    selections(root, paths, allow).lemma_flatten_and_flatten_alt_are_equivalent();
}

proof fn lemma_parse_all_fold(parts: Seq<Seq<char>>)
    ensures
        (forall|k: int| 0 <= k < parts.len() ==> parse_one_spec(#[trigger] parts[k]) is Ok)
            ==> parse_all(parts) == Ok::<Seq<PathModel>, Failure>(
            Seq::new(parts.len(), |k: int| parse_one_spec(parts[k])->Ok_0),
        ),
        forall|k: int|
            0 <= k < parts.len() && parse_one_spec(#[trigger] parts[k]) is Err && (forall|i: int|
                0 <= i < k ==> parse_one_spec(#[trigger] parts[i]) is Ok) ==> parse_all(parts)
                == Err::<Seq<PathModel>, Failure>(parse_one_spec(parts[k])->Err_0),
    decreases parts.len(),
{
    if parts.len() == 0 {
        assert(Seq::new(0, |k: int| parse_one_spec(parts[k])->Ok_0) =~= Seq::<PathModel>::empty());
    } else {
        let init = parts.drop_last();
        let n = parts.len() - 1;
        lemma_parse_all_fold(init);
        assert forall|k: int| 0 <= k < init.len() implies #[trigger] init[k] == parts[k] by {}
        if forall|k: int| 0 <= k < parts.len() ==> parse_one_spec(#[trigger] parts[k]) is Ok {
            assert forall|k: int| 0 <= k < init.len() implies parse_one_spec(
                #[trigger] init[k],
            ) is Ok by {
                assert(init[k] == parts[k]);
            }
            assert(parse_one_spec(parts[n]) is Ok);
            assert(Seq::new(init.len(), |k: int| parse_one_spec(init[k])->Ok_0).push(
                parse_one_spec(parts[n])->Ok_0,
            ) =~= Seq::new(parts.len(), |k: int| parse_one_spec(parts[k])->Ok_0));
        }
        assert forall|k: int|
            0 <= k < parts.len() && parse_one_spec(#[trigger] parts[k]) is Err && (forall|i: int|
                0 <= i < k ==> parse_one_spec(#[trigger] parts[i]) is Ok) implies parse_all(parts)
            == Err::<Seq<PathModel>, Failure>(parse_one_spec(parts[k])->Err_0) by {
            if k < n {
                assert(init[k] == parts[k]);
                assert forall|i: int| 0 <= i < k implies parse_one_spec(#[trigger] init[i]) is Ok by {
                    assert(init[i] == parts[i]);
                }
            } else {
                assert forall|i: int| 0 <= i < init.len() implies parse_one_spec(
                    #[trigger] init[i],
                ) is Ok by {
                    assert(init[i] == parts[i]);
                }
            }
        }
    }
}

proof fn lemma_parse_all_syntax_errors(parts: Seq<Seq<char>>)
    ensures
        parse_all(parts) matches Err(e) ==> e is PathSyntax,
    decreases parts.len(),
{
    if parts.len() > 0 {
        lemma_parse_all_syntax_errors(parts.drop_last());
    }
}

/// Parsing a list of paths parses each comma-separated piece in turn: a
/// lone empty piece means no paths were given; otherwise the result is one
/// path per piece, or the error of the first piece that fails. Every error
/// is a path syntax error.
pub proof fn lemma_parse_paths_piece_by_piece(raw: Seq<char>)
    ensures
        parse_paths_spec(raw) matches Err(e) ==> e is PathSyntax,
        split_parts(raw).len() == 1 && split_parts(raw)[0].len() == 0 ==> parse_paths_spec(raw)
            == Err::<Seq<PathModel>, Failure>(
            Failure::PathSyntax { path: raw, message: "no paths given"@ },
        ),
        !(split_parts(raw).len() == 1 && split_parts(raw)[0].len() == 0) && (forall|k: int|
            0 <= k < split_parts(raw).len() ==> parse_one_spec(#[trigger] split_parts(raw)[k]) is Ok)
            ==> parse_paths_spec(raw) == Ok::<Seq<PathModel>, Failure>(
            Seq::new(
                split_parts(raw).len(),
                |k: int| parse_one_spec(split_parts(raw)[k])->Ok_0,
            ),
        ),
        forall|k: int|
            !(split_parts(raw).len() == 1 && split_parts(raw)[0].len() == 0) && 0 <= k
                < split_parts(raw).len() && parse_one_spec(#[trigger] split_parts(raw)[k]) is Err
                && (forall|i: int|
                0 <= i < k ==> parse_one_spec(#[trigger] split_parts(raw)[i]) is Ok)
                ==> parse_paths_spec(raw) == Err::<Seq<PathModel>, Failure>(
                parse_one_spec(split_parts(raw)[k])->Err_0,
            ),
{
    lemma_parse_all_fold(split_parts(raw));
    lemma_parse_all_syntax_errors(split_parts(raw));
}

// ---------------------------------------------------------------------------
// Array indexes
// ---------------------------------------------------------------------------

/// Ten to the power `k`.
pub open spec fn pow10(k: nat) -> nat
    decreases k,
{
    if k == 0 {
        1
    } else {
        10 * pow10((k - 1) as nat)
    }
}

/// The number that the decimal digits d1 … dk spell: d1·10^(k-1) + … + dk.
pub open spec fn numeral(d: Seq<char>) -> nat
    decreases d.len(),
{
    if d.len() == 0 {
        0
    } else {
        ((d[0] as u32) - 48) as nat * pow10((d.len() - 1) as nat) + numeral(d.drop_first())
    }
}

proof fn lemma_numeral_push(s: Seq<char>, c: char)
    requires
        forall|i: int| 0 <= i < s.len() ==> is_digit_char(#[trigger] s[i]),
        is_digit_char(c),
    ensures
        numeral(s.push(c)) == numeral(s) * 10 + ((c as u32) - 48) as nat,
    decreases s.len(),
{
    let t = s.push(c);
    let dc = ((c as u32) - 48) as nat;
    if s.len() == 0 {
        assert(t.drop_first() =~= Seq::<char>::empty());
        assert(t[0] == c);
        assert(pow10(0) == 1);
        assert(numeral(t) == dc * pow10(0) + numeral(t.drop_first()));
        assert(numeral(t) == dc);
    } else {
        assert(t.drop_first() =~= s.drop_first().push(c));
        assert forall|i: int| 0 <= i < s.drop_first().len() implies is_digit_char(
            #[trigger] s.drop_first()[i],
        ) by {
            assert(s.drop_first()[i] == s[i + 1]);
        }
        lemma_numeral_push(s.drop_first(), c);
        let d0 = ((s[0] as u32) - 48) as nat;
        let k = (s.len() - 1) as nat;
        assert(pow10(k + 1) == 10 * pow10(k));
        assert(d0 * pow10(k + 1) == d0 * pow10(k) * 10) by (nonlinear_arith)
            requires
                pow10(k + 1) == 10 * pow10(k),
        ;
        assert(t[0] == s[0]);
        let sd = s.drop_first();
        assert(t.len() - 1 == k + 1);
        assert(numeral(t) == d0 * pow10(k + 1) + numeral(t.drop_first()));
        assert(numeral(t.drop_first()) == numeral(sd) * 10 + dc);
        assert(numeral(s) == d0 * pow10(k) + numeral(sd));
    }
}

proof fn lemma_digits_value_is_numeral(d: Seq<char>)
    requires
        forall|i: int| 0 <= i < d.len() ==> is_digit_char(#[trigger] d[i]),
    ensures
        digits_value(d) == numeral(d),
    decreases d.len(),
{
    if d.len() > 0 {
        let init = d.drop_last();
        assert forall|i: int| 0 <= i < init.len() implies is_digit_char(#[trigger] init[i]) by {
            assert(init[i] == d[i]);
        }
        lemma_digits_value_is_numeral(init);
        lemma_numeral_push(init, d.last());
        assert(init.push(d.last()) =~= d);
    }
}

/// An array index in a path is the number that its digits spell:
/// `[d1…dk]` stands for element d1·10^(k-1) + … + dk, whatever follows it.
pub proof fn lemma_index_is_the_number_its_digits_spell(d: Seq<char>, rest: Seq<char>)
    requires
        d.len() > 0,
        forall|i: int| 0 <= i < d.len() ==> is_digit_char(#[trigger] d[i]),
        numeral(d) <= usize::MAX,
    ensures
        steps_of(seq!['['] + d + seq![']'] + rest) == prepend(
            seq![Step::Index(numeral(d))],
            steps_of(rest),
        ),
{
    let t = seq!['['] + d + seq![']'] + rest;
    let k = d.len() as int;
    assert(t[0] == '[');
    assert(t[1] == d[0]);
    let u = t.drop_first();
    assert forall|i: int| 0 <= i < k implies #[trigger] crate::path::in_class(
        u[i],
        CharClass::Digit,
    ) by {
        assert(u[i] == d[i]);
    }
    assert(u[k] == ']');
    lemma_class_run_exact(u, CharClass::Digit, k);
    assert(class_run(u, CharClass::Digit) == k);
    assert(t.subrange(1, 1 + k) =~= d);
    lemma_digits_value_is_numeral(d);
    assert(t[1 + k] == ']');
    assert(t.skip(2 + k) =~= rest);
}

/// A path made of one index, `[d1…dk]`, is read as that one index step.
pub proof fn lemma_lone_index_path(d: Seq<char>)
    requires
        d.len() > 0,
        forall|i: int| 0 <= i < d.len() ==> is_digit_char(#[trigger] d[i]),
        numeral(d) <= usize::MAX,
    ensures
        parse_one_spec(seq!['['] + d + seq![']']) == Ok::<PathModel, Failure>(
            PathModel {
                steps: seq![Step::Index(numeral(d))],
                display: seq!['['] + d + seq![']'],
            },
        ),
{
    let t = seq!['['] + d + seq![']'];
    assert(!is_ws(t[0]));
    assert(t[t.len() - 1] == ']');
    assert(!is_ws(t[t.len() - 1]));
    lemma_lead_ws_exact(t, 0);
    lemma_trail_ws_exact(t, 0);
    assert(crate::text::trim_start(t) =~= t);
    assert(crate::text::trim_end(t) =~= t);
    assert(t != seq!['.']);
    reveal_strlit(".");
    assert(t + Seq::<char>::empty() =~= t);
    lemma_index_is_the_number_its_digits_spell(d, Seq::empty());
    assert(steps_of(Seq::<char>::empty()) == Ok::<Seq<Step>, Seq<char>>(Seq::empty()));
    assert(seq![Step::Index(numeral(d))] + Seq::<Step>::empty() =~= seq![Step::Index(numeral(d))]);
}

// ---------------------------------------------------------------------------
// A pruned document keeps the selected leaves
// ---------------------------------------------------------------------------

/// The steps with every array index `[n]` replaced by `[0]`: a pruned
/// array keeps only the indexed element, which then stands first.
pub open spec fn rebased(steps: Seq<Step>) -> Seq<Step> {
    steps.map_values(
        |s: Step|
            match s {
                Step::Index(_) => Step::Index(0),
                other => other,
            },
    )
}

/// Without skipping, a successful prune is never empty.
pub proof fn lemma_prune_strict_is_some(root: Json, steps: Seq<Step>, display: Seq<char>)
    ensures
        prune_spec(root, steps, display, false) is Ok ==> prune_spec(
            root,
            steps,
            display,
            false,
        )->Ok_0 is Some,
    decreases steps.len(),
{
    if steps.len() > 0 {
        let rest = steps.drop_first();
        match steps[0] {
            Step::Key(k) => {
                if let Json::Object(es) = root {
                    if let Some(child) = lookup(es, k) {
                        lemma_prune_strict_is_some(child, rest, display);
                    }
                }
            },
            Step::Index(i) => {
                if let Json::Array(a) = root {
                    if i < a.len() {
                        lemma_prune_strict_is_some(a[i as int], rest, display);
                    }
                }
            },
            Step::Iter => {},
        }
    }
}

/// Without skipping, pruning every element keeps one piece per element, in
/// order, each with its index.
pub(crate) proof fn lemma_prune_each_strict(a: Seq<Json>, rest: Seq<Step>, display: Seq<char>)
    ensures
        prune_each(a, rest, display, false) matches Ok(xs) ==> xs.len() == a.len() && forall|
            i: int,
        |
            0 <= i < a.len() ==> (#[trigger] xs[i]).0 == i && prune_spec(a[i], rest, display, false)
                == Ok::<Option<Piece>, Failure>(Some(xs[i].1)),
    decreases a.len(),
{
    if a.len() > 0 {
        lemma_prune_each_strict(a.drop_last(), rest, display);
        lemma_prune_strict_is_some(a.last(), rest, display);
        if let Ok(xs) = prune_each(a, rest, display, false) {
            let ys = prune_each(a.drop_last(), rest, display, false)->Ok_0;
            assert forall|i: int| 0 <= i < a.len() implies (#[trigger] xs[i]).0 == i && prune_spec(
                a[i],
                rest,
                display,
                false,
            ) == Ok::<Option<Piece>, Failure>(Some(xs[i].1)) by {
                if i < a.len() - 1 {
                    assert(a.drop_last()[i] == a[i]);
                    assert(xs[i] == ys[i]);
                }
            }
        }
    }
}


/// The shape of a pruned path: each key step an object with that one
/// member, each index step an array with that one element, each `[]` an
/// array with every element of the document's array, and the end of the
/// path the document's value itself.
pub open spec fn prune_shaped(q: Piece, root: Json, steps: Seq<Step>) -> bool
    decreases steps.len(),
{
    if steps.len() == 0 {
        q == Piece::Whole(root)
    } else {
        let rest = steps.drop_first();
        match steps[0] {
            Step::Key(k) => match (q, root) {
                (Piece::Obj(es), Json::Object(ex)) => es.len() == 1 && es[0].0 == k && match lookup(
                    ex,
                    k,
                ) {
                    Some(child) => prune_shaped(es[0].1, child, rest),
                    None => false,
                },
                _ => false,
            },
            Step::Index(i) => match (q, root) {
                (Piece::Arr(xs), Json::Array(a)) => xs.len() == 1 && xs[0].0 == i && i < a.len()
                    && prune_shaped(xs[0].1, a[i as int], rest),
                _ => false,
            },
            Step::Iter => match (q, root) {
                (Piece::Arr(xs), Json::Array(a)) => xs.len() == a.len() && forall|j: int|
                    0 <= j < a.len() ==> (#[trigger] xs[j]).0 == j && prune_shaped(
                        xs[j].1,
                        a[j],
                        rest,
                    ),
                _ => false,
            },
        }
    }
}

/// Without skipping, a pruned path holds nothing off the path: one member
/// per key, one element per index, every element for `[]`.
pub proof fn lemma_prune_shape(root: Json, steps: Seq<Step>, display: Seq<char>)
    ensures
        prune_spec(root, steps, display, false) matches Ok(Some(q)) ==> prune_shaped(q, root, steps),
    decreases steps.len(),
{
    if steps.len() > 0 {
        let rest = steps.drop_first();
        match steps[0] {
            Step::Key(k) => {
                if let Json::Object(es) = root {
                    if let Some(child) = lookup(es, k) {
                        lemma_prune_shape(child, rest, display);
                        if let Ok(Some(p)) = prune_spec(child, rest, display, false) {
                            assert(seq![(k, p)][0] == (k, p));
                        }
                    }
                }
            },
            Step::Index(i) => {
                if let Json::Array(a) = root {
                    if i < a.len() {
                        lemma_prune_shape(a[i as int], rest, display);
                        if let Ok(Some(p)) = prune_spec(a[i as int], rest, display, false) {
                            assert(seq![(i, p)][0] == (i, p));
                        }
                    }
                }
            },
            Step::Iter => {
                if let Json::Array(a) = root {
                    lemma_prune_each_strict(a, rest, display);
                    if let Ok(xs) = prune_each(a, rest, display, false) {
                        assert forall|j: int| 0 <= j < a.len() implies (#[trigger] xs[j]).0 == j
                            && prune_shaped(xs[j].1, a[j], rest) by {
                            lemma_prune_shape(a[j], rest, display);
                        }
                    }
                }
            },
        }
    }
}

/// Pruning keeps the selection: selecting the path, with its array indexes
/// re-based to 0, in the pruned document gives what selecting the path in
/// the whole document gives.
pub proof fn lemma_prune_keeps_selection(root: Json, steps: Seq<Step>, display: Seq<char>)
    requires
        prune_spec(root, steps, display, false) is Ok,
    ensures
        prune_spec(root, steps, display, false) matches Ok(Some(p)) && select_spec(
            piece_json(p),
            rebased(steps),
            display,
            false,
        ) == select_spec(root, steps, display, false),
    decreases steps.len(),
{
    lemma_prune_strict_is_some(root, steps, display);
    if steps.len() > 0 {
        let rest = steps.drop_first();
        let rb = rebased(steps);
        assert(rb.drop_first() =~= rebased(rest));
        match steps[0] {
            Step::Key(k) => {
                assert(rb[0] == Step::Key(k));
                if let Json::Object(es) = root {
                    if let Some(child) = lookup(es, k) {
                        lemma_prune_keeps_selection(child, rest, display);
                        let q = prune_spec(child, rest, display, false)->Ok_0->Some_0;
                        let pj = piece_json(Piece::Obj(seq![(k, q)]));
                        let single = pj->Object_0;
                        assert(single.len() == 1);
                        assert(single[0] == (k, piece_json(q)));
                        assert(key_index(single, k) == Some(0int));
                    }
                }
            },
            Step::Index(i) => {
                assert(rb[0] == Step::Index(0));
                if let Json::Array(a) = root {
                    if i < a.len() {
                        lemma_prune_keeps_selection(a[i as int], rest, display);
                        let q = prune_spec(a[i as int], rest, display, false)->Ok_0->Some_0;
                        let vs = piece_json(Piece::Arr(seq![(i, q)]))->Array_0;
                        assert(vs.len() == 1);
                        assert(vs[0] == piece_json(seq![(i, q)][0].1));
                    }
                }
            },
            Step::Iter => {
                assert(rb[0] == Step::Iter);
                if let Json::Array(a) = root {
                    lemma_prune_each_strict(a, rest, display);
                    let xs = prune_each(a, rest, display, false)->Ok_0;
                    let vs = piece_json(Piece::Arr(xs))->Array_0;
                    assert forall|i: int| 0 <= i < a.len() implies select_spec(
                        #[trigger] vs[i],
                        rebased(rest),
                        display,
                        false,
                    ) == select_spec(a[i], rest, display, false) by {
                        assert(vs[i] == piece_json(xs[i].1));
                        lemma_prune_keeps_selection(a[i], rest, display);
                    }
                    lemma_select_each_rebased(vs, a, rest, display);
                }
            },
        }
    }
}

/// Selecting the re-based steps in every element of one array is selecting
/// the steps in every element of another, where the elements select alike.
pub(crate) proof fn lemma_select_each_rebased(
    xs: Seq<Json>,
    a: Seq<Json>,
    rest: Seq<Step>,
    display: Seq<char>,
)
    requires
        xs.len() == a.len(),
        forall|i: int|
            0 <= i < a.len() ==> select_spec(#[trigger] xs[i], rebased(rest), display, false)
                == select_spec(a[i], rest, display, false),
    ensures
        select_each(xs, rebased(rest), display, false) == select_each(a, rest, display, false),
    decreases a.len(),
{
    if a.len() > 0 {
        assert forall|i: int| 0 <= i < a.len() - 1 implies select_spec(
            #[trigger] xs.drop_last()[i],
            rebased(rest),
            display,
            false,
        ) == select_spec(a.drop_last()[i], rest, display, false) by {
            assert(xs.drop_last()[i] == xs[i]);
            assert(a.drop_last()[i] == a[i]);
        }
        lemma_select_each_rebased(xs.drop_last(), a.drop_last(), rest, display);
        assert(select_spec(xs.last(), rebased(rest), display, false) == select_spec(
            a.last(),
            rest,
            display,
            false,
        ));
    }
}

// ---------------------------------------------------------------------------
// Merging a piece with itself, and repeated paths
// ---------------------------------------------------------------------------

/// Merging a piece with itself gives it back.
pub proof fn lemma_merge_idempotent(p: Piece)
    ensures
        merge_spec(p, p) == p,
    decreases p,
{
    match p {
        Piece::Obj(es) => {
            assert(decreases_to!(p => es));
            lemma_merge_members_self(es);
        },
        Piece::Arr(xs) => {
            assert(decreases_to!(p => xs));
            lemma_merge_items_self(xs);
        },
        _ => {},
    }
}

proof fn lemma_merge_members_self(es: Seq<(Seq<char>, Piece)>)
    ensures
        merge_members(es, es) == es,
    decreases es,
{
    if es.len() > 0 {
        lemma_key_lt_irreflexive(es[0].0);
        assert(decreases_to!(es => es[0]));
        assert(decreases_to!(es[0] => es[0].1));
        lemma_merge_idempotent(es[0].1);
        assert(decreases_to!(es => es.drop_first()));
        lemma_merge_members_self(es.drop_first());
        assert(seq![es[0]] + es.drop_first() =~= es);
    }
}

proof fn lemma_merge_items_self(xs: Seq<(nat, Piece)>)
    ensures
        merge_items(xs, xs) == xs,
    decreases xs,
{
    if xs.len() > 0 {
        assert(decreases_to!(xs => xs[0]));
        assert(decreases_to!(xs[0] => xs[0].1));
        lemma_merge_idempotent(xs[0].1);
        assert(decreases_to!(xs => xs.drop_first()));
        lemma_merge_items_self(xs.drop_first());
        assert(seq![xs[0]] + xs.drop_first() =~= xs);
    }
}

/// Selecting the same path twice merges to the same piece as selecting it
/// once, and so gives the same structured projection when it succeeds.
pub proof fn lemma_repeated_path_is_harmless(root: Json, p: PathModel, allow: bool)
    ensures
        structured_acc(root, seq![p, p], allow) == structured_acc(root, seq![p], allow),
        structured_spec(root, seq![p, p], allow) is Ok ==> structured_spec(root, seq![p, p], allow)
            == structured_spec(root, seq![p], allow),
{
    let two = seq![p, p];
    let one = seq![p];
    assert(two.drop_last() =~= one);
    assert(one.drop_last() =~= Seq::<PathModel>::empty());
    assert(two.last() == p);
    assert(one.last() == p);
    assert(structured_acc(root, one.drop_last(), allow) == Ok::<Option<Piece>, Failure>(None));
    match prune_spec(root, p.steps, p.display, allow) {
        Ok(Some(x)) => {
            lemma_merge_idempotent(x);
            assert(structured_acc(root, one, allow) == Ok::<Option<Piece>, Failure>(Some(x)));
            assert(structured_acc(root, two, allow) == Ok::<Option<Piece>, Failure>(
                Some(merge_spec(x, x)),
            ));
        },
        Ok(None) => {
            assert(structured_acc(root, one, allow) == Ok::<Option<Piece>, Failure>(None));
            assert(structured_acc(root, two, allow) == Ok::<Option<Piece>, Failure>(None));
        },
        Err(e) => {
            assert(structured_acc(root, one, allow) == Err::<Option<Piece>, Failure>(e));
            assert(structured_acc(root, two, allow) == Err::<Option<Piece>, Failure>(e));
        },
    }
}


// ---------------------------------------------------------------------------
// Flat output
// ---------------------------------------------------------------------------

/// Flat output holds its names in ascending order, so never two entries
/// under the same name.
pub proof fn lemma_flat_names_sorted(root: Json, paths: Seq<PathModel>, allow: bool)
    ensures
        flat_acc(root, paths, allow) matches Ok(obj) ==> sorted_keys(obj) && distinct_keys(obj),
    decreases paths.len(),
{
    if paths.len() > 0 {
        lemma_flat_names_sorted(root, paths.drop_last(), allow);
        if let Ok(obj) = flat_acc(root, paths.drop_last(), allow) {
            let p = paths.last();
            if let Ok(values) = select_spec(root, p.steps, p.display, allow) {
                if let Some(name) = last_key(p.steps) {
                    if !has_key(obj, name) {
                        lemma_insert_entry_sorted(obj, (name, flat_value(p.steps, values)));
                    }
                }
            }
        }
        if let Ok(now) = flat_acc(root, paths, allow) {
            lemma_sorted_keys_distinct(now);
        }
    }
}

/// Whether flat output keeps an entry for the path: the path selects
/// something, or it iterates an array (and stores a list, maybe empty).
pub open spec fn flat_kept(root: Json, p: PathModel, allow: bool) -> bool {
    select_spec(root, p.steps, p.display, allow) matches Ok(vs) && (has_iter_step(p.steps)
        || vs.len() > 0)
}

/// The value that flat output stores under `name`: that of the last kept
/// path named so.
pub open spec fn flat_entry(root: Json, paths: Seq<PathModel>, allow: bool, name: Seq<char>) -> Option<
    Json,
>
    decreases paths.len(),
{
    if paths.len() == 0 {
        None
    } else {
        let p = paths.last();
        if flat_kept(root, p, allow) && last_key(p.steps) == Some(name) {
            Some(flat_value(p.steps, select_spec(root, p.steps, p.display, allow)->Ok_0))
        } else {
            flat_entry(root, paths.drop_last(), allow, name)
        }
    }
}

/// Selection fails only with a missing path or a wrong kind of value.
pub proof fn lemma_select_fails_only_by_path(root: Json, steps: Seq<Step>, display: Seq<char>, allow: bool)
    ensures
        select_spec(root, steps, display, allow) matches Err(e) ==> e is PathNotFound
            || e is TypeMismatch,
    decreases steps.len(), 1nat, 0nat,
{
    if steps.len() > 0 {
        let rest = steps.drop_first();
        match steps[0] {
            Step::Key(k) => {
                if let Json::Object(es) = root {
                    if let Some(child) = lookup(es, k) {
                        lemma_select_fails_only_by_path(child, rest, display, allow);
                    }
                }
            },
            Step::Index(i) => {
                if let Json::Array(a) = root {
                    if i < a.len() {
                        lemma_select_fails_only_by_path(a[i as int], rest, display, allow);
                    }
                }
            },
            Step::Iter => {
                if let Json::Array(a) = root {
                    lemma_select_each_fails_only_by_path(a, rest, display, allow);
                }
            },
        }
    }
}

proof fn lemma_select_each_fails_only_by_path(
    a: Seq<Json>,
    rest: Seq<Step>,
    display: Seq<char>,
    allow: bool,
)
    ensures
        select_each(a, rest, display, allow) matches Err(e) ==> e is PathNotFound
            || e is TypeMismatch,
    decreases rest.len() + 1, 0nat, a.len(),
{
    if a.len() > 0 {
        lemma_select_each_fails_only_by_path(a.drop_last(), rest, display, allow);
        lemma_select_fails_only_by_path(a.last(), rest, display, allow);
    }
}

proof fn lemma_flat_entry_found(root: Json, paths: Seq<PathModel>, allow: bool, name: Seq<char>) -> (i: int)
    requires
        flat_entry(root, paths, allow, name) is Some,
    ensures
        0 <= i < paths.len(),
        flat_kept(root, paths[i], allow),
        last_key(paths[i].steps) == Some(name),
    decreases paths.len(),
{
    let p = paths.last();
    if flat_kept(root, p, allow) && last_key(p.steps) == Some(name) {
        paths.len() - 1
    } else {
        let i = lemma_flat_entry_found(root, paths.drop_last(), allow, name);
        assert(paths.drop_last()[i] == paths[i]);
        i
    }
}

/// Flat output holds one entry per kept path, under the path's name, with
/// the path's value (a list for a path that iterates); a name collision is
/// reported only when two kept paths share a name.
pub proof fn lemma_flat_holds_one_entry_per_kept_path(root: Json, paths: Seq<PathModel>, allow: bool)
    ensures
        flat_acc(root, paths, allow) matches Ok(obj) ==> forall|name: Seq<char>|
            #[trigger] lookup(obj, name) == flat_entry(root, paths, allow, name),
        flat_acc(root, paths, allow) matches Err(Failure::NameCollision { name }) ==> exists|
            i: int,
            j: int,
        |
            0 <= i < j < paths.len() && flat_kept(root, #[trigger] paths[i], allow) && flat_kept(
                root,
                #[trigger] paths[j],
                allow,
            ) && last_key(paths[i].steps) == Some(name) && last_key(paths[j].steps) == Some(
                name,
            ),
    decreases paths.len(),
{
    if paths.len() > 0 {
        let init = paths.drop_last();
        let p = paths.last();
        let n = paths.len() - 1;
        lemma_flat_holds_one_entry_per_kept_path(root, init, allow);
        lemma_flat_names_sorted(root, init, allow);
        lemma_select_fails_only_by_path(root, p.steps, p.display, allow);
        assert forall|k: int| 0 <= k < init.len() implies #[trigger] init[k] == paths[k] by {}
        match flat_acc(root, init, allow) {
            Err(e) => {
                if let Failure::NameCollision { name } = e {
                    let (i, j) = choose|i: int, j: int|
                        0 <= i < j < init.len() && flat_kept(root, #[trigger] init[i], allow)
                            && flat_kept(root, #[trigger] init[j], allow) && last_key(
                            init[i].steps,
                        ) == Some(name) && last_key(init[j].steps) == Some(name);
                    assert(paths[i] == init[i] && paths[j] == init[j]);
                }
            },
            Ok(obj) => {
                if let Ok(values) = select_spec(root, p.steps, p.display, allow) {
                    if let Some(name) = last_key(p.steps) {
                        if !has_iter_step(p.steps) && values.len() == 0 {
                            assert(!flat_kept(root, p, allow));
                        } else if has_key(obj, name) {
                            lemma_key_index(obj, name);
                            assert(lookup(obj, name) is Some);
                            let i = lemma_flat_entry_found(root, init, allow, name);
                            assert(paths[i] == init[i]);
                            assert(paths[n] == p);
                        } else {
                            let e = (name, flat_value(p.steps, values));
                            assert forall|k: Seq<char>| #[trigger]
                                lookup(insert_entry(obj, e), k) == flat_entry(
                                    root,
                                    paths,
                                    allow,
                                    k,
                                ) by {
                                lemma_insert_entry_lookup(obj, e, k);
                            }
                        }
                    }
                }
            },
        }
    }
}

proof fn lemma_flat_acc_ok_parts(root: Json, paths: Seq<PathModel>, allow: bool)
    ensures
        flat_acc(root, paths, allow) is Ok ==> forall|k: int|
            0 <= k < paths.len() ==> select_spec(
                root,
                (#[trigger] paths[k]).steps,
                paths[k].display,
                allow,
            ) is Ok && last_key(paths[k].steps) is Some,
    decreases paths.len(),
{
    if paths.len() > 0 {
        lemma_flat_acc_ok_parts(root, paths.drop_last(), allow);
        assert forall|k: int| 0 <= k < paths.len() - 1 implies #[trigger] paths[k]
            == paths.drop_last()[k] by {}
    }
}

proof fn lemma_flat_entry_some(root: Json, paths: Seq<PathModel>, allow: bool, i: int, name: Seq<char>)
    requires
        0 <= i < paths.len(),
        flat_kept(root, paths[i], allow),
        last_key(paths[i].steps) == Some(name),
    ensures
        flat_entry(root, paths, allow, name) is Some,
    decreases paths.len(),
{
    let p = paths.last();
    if !(flat_kept(root, p, allow) && last_key(p.steps) == Some(name)) {
        assert(i < paths.len() - 1);
        assert(paths.drop_last()[i] == paths[i]);
        lemma_flat_entry_some(root, paths.drop_last(), allow, i, name);
    }
}

proof fn lemma_flat_entry_is(root: Json, paths: Seq<PathModel>, allow: bool, k: int, name: Seq<char>)
    requires
        0 <= k < paths.len(),
        flat_kept(root, paths[k], allow),
        last_key(paths[k].steps) == Some(name),
        forall|j: int|
            k < j < paths.len() ==> !(flat_kept(root, #[trigger] paths[j], allow) && last_key(
                paths[j].steps,
            ) == Some(name)),
    ensures
        flat_entry(root, paths, allow, name) == Some(
            flat_value(
                paths[k].steps,
                select_spec(root, paths[k].steps, paths[k].display, allow)->Ok_0,
            ),
        ),
    decreases paths.len(),
{
    if k < paths.len() - 1 {
        let init = paths.drop_last();
        assert(!(flat_kept(root, paths[paths.len() - 1], allow) && last_key(
            paths[paths.len() - 1].steps,
        ) == Some(name)));
        assert(init[k] == paths[k]);
        assert forall|j: int| k < j < init.len() implies !(flat_kept(root, #[trigger] init[j], allow)
            && last_key(init[j].steps) == Some(name)) by {
            assert(init[j] == paths[j]);
        }
        lemma_flat_entry_is(root, init, allow, k, name);
    }
}

proof fn lemma_flat_names_unique(root: Json, paths: Seq<PathModel>, allow: bool)
    ensures
        flat_acc(root, paths, allow) is Ok ==> forall|i: int, j: int|
            0 <= i < j < paths.len() && flat_kept(root, #[trigger] paths[i], allow) && flat_kept(
                root,
                #[trigger] paths[j],
                allow,
            ) ==> last_key(paths[i].steps) != last_key(paths[j].steps),
    decreases paths.len(),
{
    if paths.len() > 0 {
        let init = paths.drop_last();
        let n = paths.len() - 1;
        lemma_flat_names_unique(root, init, allow);
        lemma_flat_holds_one_entry_per_kept_path(root, init, allow);
        lemma_flat_acc_ok_parts(root, paths, allow);
        assert forall|k: int| 0 <= k < init.len() implies #[trigger] init[k] == paths[k] by {}
        if flat_acc(root, paths, allow) is Ok {
            let obj = flat_acc(root, init, allow)->Ok_0;
            assert forall|i: int, j: int|
                0 <= i < j < paths.len() && flat_kept(root, #[trigger] paths[i], allow) && flat_kept(
                    root,
                    #[trigger] paths[j],
                    allow,
                ) implies last_key(paths[i].steps) != last_key(paths[j].steps) by {
                if j < n {
                    assert(init[i] == paths[i] && init[j] == paths[j]);
                } else if last_key(paths[i].steps) == last_key(paths[j].steps) {
                    let name = last_key(paths[j].steps)->Some_0;
                    assert(init[i] == paths[i]);
                    lemma_flat_entry_some(root, init, allow, i, name);
                    assert(lookup(obj, name) is Some);
                    lemma_key_index(obj, name);
                    assert(has_key(obj, name));
                    let p = paths.last();
                    assert(p == paths[j]);
                    let values = select_spec(root, p.steps, p.display, allow)->Ok_0;
                    assert(has_iter_step(p.steps) || values.len() > 0);
                    assert(flat_acc(root, paths, allow) == Err::<Seq<(Seq<char>, Json)>, Failure>(
                        Failure::NameCollision { name },
                    ));
                }
            }
        }
    }
}

/// Flat output stores, for a path that iterates an array (`[]`), the list of
/// everything the path selects, whatever its length (one element or none
/// included); for any other path that selects exactly one value, that value.
pub proof fn lemma_flat_stores_lists_for_iterating_paths(
    root: Json,
    paths: Seq<PathModel>,
    allow: bool,
    k: int,
)
    requires
        0 <= k < paths.len(),
        flat_spec(root, paths, allow) is Ok,
    ensures
        select_spec(root, paths[k].steps, paths[k].display, allow) matches Ok(vs) && last_key(
            paths[k].steps,
        ) matches Some(name) && flat_spec(root, paths, allow) matches Ok(Json::Object(obj)) && (
        has_iter_step(paths[k].steps) ==> lookup(obj, name) == Some(Json::Array(vs))) && (
        !has_iter_step(paths[k].steps) && vs.len() == 1 ==> lookup(obj, name) == Some(vs[0])),
{
    lemma_flat_acc_ok_parts(root, paths, allow);
    lemma_flat_names_unique(root, paths, allow);
    lemma_flat_holds_one_entry_per_kept_path(root, paths, allow);
    let p = paths[k];
    let vs = select_spec(root, p.steps, p.display, allow)->Ok_0;
    let name = last_key(p.steps)->Some_0;
    let obj = flat_acc(root, paths, allow)->Ok_0;
    if has_iter_step(p.steps) || vs.len() == 1 {
        assert(flat_kept(root, p, allow));
        assert forall|j: int| k < j < paths.len() implies !(flat_kept(root, #[trigger] paths[j], allow)
            && last_key(paths[j].steps) == Some(name)) by {
            if flat_kept(root, paths[j], allow) {
                assert(last_key(paths[k].steps) != last_key(paths[j].steps));
            }
        }
        lemma_flat_entry_is(root, paths, allow, k, name);
        assert(lookup(obj, name) == flat_entry(root, paths, allow, name));
    }
}

// ---------------------------------------------------------------------------
// The "nearest existing key" hint
// ---------------------------------------------------------------------------

/// The hint for a missing key is an existing key within edit distance 3 of
/// it, and no existing key is closer; of keys equally close, the first in
/// entry order wins; there is no hint only when no key is within distance 3.
pub proof fn lemma_nearest_is_closest(es: Seq<(Seq<char>, Json)>, missing: Seq<char>)
    ensures
        nearest(es, missing) matches Some(k) ==> {
            &&& has_key(es, k)
            &&& lev(k, missing) <= 3
            &&& forall|i: int| 0 <= i < es.len() ==> lev(k, missing) <= lev(#[trigger] es[i].0, missing)
            &&& exists|i: int|
                0 <= i < es.len() && #[trigger] es[i].0 == k && forall|j: int|
                    0 <= j < i ==> lev(k, missing) < lev(#[trigger] es[j].0, missing)
        },
        nearest(es, missing) is None ==> forall|i: int|
            0 <= i < es.len() ==> lev(#[trigger] es[i].0, missing) > 3,
    decreases es.len(),
{
    if es.len() > 0 {
        let init = es.drop_last();
        let n = es.len() - 1;
        lemma_nearest_is_closest(init, missing);
        assert forall|i: int| 0 <= i < init.len() implies #[trigger] init[i] == es[i] by {}
        let last = es[n].0;
        assert(es.last() == es[n]);
        let d = lev(last, missing);
        match nearest(init, missing) {
            None => {
                if d > 3 {
                    assert(nearest(es, missing) is None);
                    assert forall|i: int| 0 <= i < es.len() implies lev(#[trigger] es[i].0, missing)
                        > 3 by {
                        if i < n {
                            assert(init[i].0 == es[i].0);
                        }
                    }
                } else {
                    assert(nearest(es, missing) == Some(last));
                    assert(es[n].0 == last);
                    assert forall|i: int| 0 <= i < es.len() implies lev(last, missing) <= lev(
                        #[trigger] es[i].0,
                        missing,
                    ) by {
                        if i < n {
                            assert(init[i].0 == es[i].0);
                        }
                    }
                    assert forall|j: int| 0 <= j < n implies lev(last, missing) < lev(
                        #[trigger] es[j].0,
                        missing,
                    ) by {
                        assert(init[j].0 == es[j].0);
                    }
                }
            },
            Some(pk) => {
                let w = choose|i: int|
                    0 <= i < init.len() && #[trigger] init[i].0 == pk && forall|j: int|
                        0 <= j < i ==> lev(pk, missing) < lev(#[trigger] init[j].0, missing);
                assert(es[w].0 == pk);
                if d <= 3 && d < lev(pk, missing) {
                    assert(nearest(es, missing) == Some(last));
                    assert(es[n].0 == last);
                    assert forall|i: int| 0 <= i < es.len() implies lev(last, missing) <= lev(
                        #[trigger] es[i].0,
                        missing,
                    ) by {
                        if i < n {
                            assert(init[i].0 == es[i].0);
                            assert(lev(pk, missing) <= lev(init[i].0, missing));
                        }
                    }
                    assert forall|j: int| 0 <= j < n implies lev(last, missing) < lev(
                        #[trigger] es[j].0,
                        missing,
                    ) by {
                        assert(init[j].0 == es[j].0);
                        assert(lev(pk, missing) <= lev(init[j].0, missing));
                    }
                } else {
                    assert forall|j: int| 0 <= j < w implies lev(pk, missing) < lev(
                        #[trigger] es[j].0,
                        missing,
                    ) by {
                        assert(init[j].0 == es[j].0);
                    }
                    assert(nearest(es, missing) == Some(pk));
                    assert forall|i: int| 0 <= i < es.len() implies lev(pk, missing) <= lev(
                        #[trigger] es[i].0,
                        missing,
                    ) by {
                        if i < n {
                            assert(init[i].0 == es[i].0);
                            assert(lev(pk, missing) <= lev(init[i].0, missing));
                        }
                    }
                }
            },
        }
    }
}


// ---------------------------------------------------------------------------
// Parts of a value, and the same value in any key order
// ---------------------------------------------------------------------------

/// `x` is a part of `y`: each entry of an object of `x` is found, under its
/// key, in the matching object of `y`, holding a part of the value stored
/// there; an array of `x` matches the array of `y` element by element; any
/// other value is `y` itself.
pub open spec fn part_of(x: Json, y: Json) -> bool
    decreases x,
{
    match x {
        Json::Object(ex) => match y {
            Json::Object(ey) => forall|i: int|
                0 <= i < ex.len() ==> match lookup(ey, (#[trigger] ex[i]).0) {
                    Some(v) => part_of(ex[i].1, v),
                    None => false,
                },
            _ => false,
        },
        Json::Array(ax) => match y {
            Json::Array(ay) => ax.len() == ay.len() && forall|i: int|
                0 <= i < ax.len() ==> part_of(#[trigger] ax[i], ay[i]),
            _ => false,
        },
        _ => x == y,
    }
}

/// `x` and `y` are the same JSON value: objects are compared by their
/// entries, whatever their order.
pub open spec fn same_json(x: Json, y: Json) -> bool {
    part_of(x, y) && part_of(y, x)
}

/// Every well-formed value is a part of itself.
pub proof fn lemma_part_of_refl(x: Json)
    requires
        well_formed(x),
    ensures
        part_of(x, x),
    decreases x,
{
    match x {
        Json::Object(ex) => {
            assert forall|i: int| 0 <= i < ex.len() implies match lookup(ex, (#[trigger] ex[i]).0) {
                Some(v) => part_of(ex[i].1, v),
                None => false,
            } by {
                lemma_key_index_distinct(ex, i);
                assert(decreases_to!(x => ex));
                assert(decreases_to!(ex => ex[i]));
                assert(decreases_to!(ex[i] => ex[i].1));
                lemma_part_of_refl(ex[i].1);
            }
        },
        Json::Array(ax) => {
            assert forall|i: int| 0 <= i < ax.len() implies part_of(#[trigger] ax[i], ax[i]) by {
                assert(decreases_to!(x => ax));
                assert(decreases_to!(ax => ax[i]));
                lemma_part_of_refl(ax[i]);
            }
        },
        _ => {},
    }
}

/// A part of a part of `z` is a part of `z`.
pub proof fn lemma_part_of_trans(x: Json, y: Json, z: Json)
    requires
        part_of(x, y),
        part_of(y, z),
    ensures
        part_of(x, z),
    decreases x,
{
    match x {
        Json::Object(ex) => {
            let ey = y->Object_0;
            let ez = z->Object_0;
            assert forall|i: int| 0 <= i < ex.len() implies match lookup(ez, (#[trigger] ex[i]).0) {
                Some(v) => part_of(ex[i].1, v),
                None => false,
            } by {
                let k = ex[i].0;
                assert(match lookup(ey, ex[i].0) {
                    Some(v) => part_of(ex[i].1, v),
                    None => false,
                });
                lemma_key_index(ey, k);
                let j = key_index(ey, k)->Some_0;
                assert(match lookup(ez, (ey[j]).0) {
                    Some(v) => part_of(ey[j].1, v),
                    None => false,
                });
                assert(decreases_to!(x => ex));
                assert(decreases_to!(ex => ex[i]));
                assert(decreases_to!(ex[i] => ex[i].1));
                lemma_part_of_trans(ex[i].1, ey[j].1, lookup(ez, k)->Some_0);
            }
        },
        Json::Array(ax) => {
            let ay = y->Array_0;
            let az = z->Array_0;
            assert forall|i: int| 0 <= i < ax.len() implies part_of(#[trigger] ax[i], az[i]) by {
                assert(part_of(ay[i], az[i]));
                assert(decreases_to!(x => ax));
                assert(decreases_to!(ax => ax[i]));
                lemma_part_of_trans(ax[i], ay[i], az[i]);
            }
        },
        _ => {},
    }
}

// ---------------------------------------------------------------------------
// Output text
// ---------------------------------------------------------------------------

/// YAML and TOML output carries no trailing newline or other trailing
/// whitespace: it is empty or ends in a non-whitespace character.
pub proof fn lemma_document_text_has_no_trailing_space(
    docs: Seq<Json>,
    format: OutputFormat,
    pretty: bool,
)
    requires
        format is Yaml || format is Toml,
    ensures
        render_spec(docs, format, pretty) matches Ok(t) ==> t.len() == 0 || !is_ws(t.last()),
{
    let value = collapse_spec(docs);
    match yaml_write(value) {
        Ok(w) => lemma_trim_end_ends_in_text(w),
        Err(_) => {},
    }
    match toml_write(value) {
        Ok(w) => lemma_trim_end_ends_in_text(w),
        Err(_) => {},
    }
}


// ---------------------------------------------------------------------------
// ---------------------------------------------------------------------------
// Raw output
// ---------------------------------------------------------------------------

/// The raw lines of selected values are their raw texts, in order; where
/// some value is not a scalar, the first such value is the error.
pub proof fn lemma_raw_lines_are_scalar_texts(pairs: Seq<(Seq<char>, Json)>)
    ensures
        (forall|i: int| 0 <= i < pairs.len() ==> scalar(#[trigger] pairs[i].1)) ==> raw_lines_of(
            pairs,
        ) == Ok::<Seq<Seq<char>>, Failure>(
            pairs.map_values(|p: (Seq<char>, Json)| raw_text(p.1)),
        ),
        forall|k: int|
            0 <= k < pairs.len() && !scalar(#[trigger] pairs[k].1) && (forall|i: int|
                0 <= i < k ==> scalar(#[trigger] pairs[i].1)) ==> raw_lines_of(pairs) == Err::<
                Seq<Seq<char>>,
                Failure,
            >(Failure::RawNonScalar { path: pairs[k].0, found: kind_name(pairs[k].1) }),
    decreases pairs.len(),
{
    if pairs.len() == 0 {
        assert(pairs.map_values(|p: (Seq<char>, Json)| raw_text(p.1)) =~= Seq::<Seq<char>>::empty());
    } else {
        let init = pairs.drop_last();
        let n = pairs.len() - 1;
        lemma_raw_lines_are_scalar_texts(init);
        assert forall|k: int| 0 <= k < init.len() implies #[trigger] init[k] == pairs[k] by {}
        if forall|i: int| 0 <= i < pairs.len() ==> scalar(#[trigger] pairs[i].1) {
            assert forall|i: int| 0 <= i < init.len() implies scalar(#[trigger] init[i].1) by {
                assert(init[i] == pairs[i]);
            }
            assert(scalar(pairs[n].1));
            assert(init.map_values(|p: (Seq<char>, Json)| raw_text(p.1)).push(raw_text(pairs[n].1))
                =~= pairs.map_values(|p: (Seq<char>, Json)| raw_text(p.1)));
        }
        assert forall|k: int|
            0 <= k < pairs.len() && !scalar(#[trigger] pairs[k].1) && (forall|i: int|
                0 <= i < k ==> scalar(#[trigger] pairs[i].1)) implies raw_lines_of(pairs) == Err::<
            Seq<Seq<char>>,
            Failure,
        >(Failure::RawNonScalar { path: pairs[k].0, found: kind_name(pairs[k].1) }) by {
            if k < n {
                assert(init[k] == pairs[k]);
                assert forall|i: int| 0 <= i < k implies scalar(#[trigger] init[i].1) by {
                    assert(init[i] == pairs[i]);
                }
            } else {
                assert forall|i: int| 0 <= i < init.len() implies scalar(#[trigger] init[i].1) by {
                    assert(init[i] == pairs[i]);
                }
            }
        }
    }
}

/// Every value selected in every record, record after record.
pub open spec fn every_selection(records: Seq<Json>, paths: Seq<PathModel>, allow: bool) -> Seq<
    (Seq<char>, Json),
> {
    Seq::new(
        records.len(),
        |r: int| select_all_spec(records[r], paths, allow)->Ok_0,
    ).flatten_alt()
}

proof fn lemma_raw_lines_of_concat(a: Seq<(Seq<char>, Json)>, b: Seq<(Seq<char>, Json)>)
    ensures
        raw_lines_of(a + b) == match raw_lines_of(a) {
            Err(e) => Err(e),
            Ok(la) => match raw_lines_of(b) {
                Err(e) => Err(e),
                Ok(lb) => Ok(la + lb),
            },
        },
    decreases b.len(),
{
    if b.len() == 0 {
        assert(a + b =~= a);
        if let Ok(la) = raw_lines_of(a) {
            assert(la + Seq::<Seq<char>>::empty() =~= la);
        }
    } else {
        lemma_raw_lines_of_concat(a, b.drop_last());
        assert((a + b).drop_last() =~= a + b.drop_last());
        assert((a + b).last() == b.last());
        if let Ok(la) = raw_lines_of(a) {
            if let Ok(lb0) = raw_lines_of(b.drop_last()) {
                assert(la + lb0.push(raw_text(b.last().1)) =~= (la + lb0).push(raw_text(b.last().1)));
            }
        }
    }
}

/// Raw output of several records is the raw lines of every value selected
/// in them, record after record and path after path.
pub proof fn lemma_raw_lines_are_every_selection(records: Seq<Json>, paths: Seq<PathModel>, allow: bool)
    requires
        forall|r: int| 0 <= r < records.len() ==> select_all_spec(#[trigger] records[r], paths, allow) is Ok,
    ensures
        raw_lines(records, paths, allow) == raw_lines_of(every_selection(records, paths, allow)),
    decreases records.len(),
{
    if records.len() > 0 {
        let init = records.drop_last();
        assert forall|r: int| 0 <= r < init.len() implies select_all_spec(
            #[trigger] init[r],
            paths,
            allow,
        ) is Ok by {
            assert(init[r] == records[r]);
        }
        lemma_raw_lines_are_every_selection(init, paths, allow);
        let whole = Seq::new(records.len(), |r: int| select_all_spec(records[r], paths, allow)->Ok_0);
        let part = Seq::new(init.len(), |r: int| select_all_spec(init[r], paths, allow)->Ok_0);
        assert(whole.drop_last() =~= part);
        assert(select_all_spec(records.last(), paths, allow) is Ok);
        lemma_raw_lines_of_concat(part.flatten_alt(), whole.last());
    } else {
        let whole = Seq::new(records.len(), |r: int| select_all_spec(records[r], paths, allow)->Ok_0);
        assert(whole.flatten_alt() =~= Seq::<(Seq<char>, Json)>::empty());
    }
}

// ---------------------------------------------------------------------------
// Options that only some formats read
// ---------------------------------------------------------------------------

/// The output format that a request asks for: the forced one, or the
/// default for its input.
pub open spec fn requested_output(req: Request) -> OutputFormat {
    match req.to {
        Some(f) => f,
        None => default_output_spec(req.from),
    }
}

/// With no output format forced, a request gives what it gives with the
/// default forced: NDJSON for NDJSON input, JSON otherwise.
pub proof fn lemma_default_output(req: Request)
    ensures
        default_output_spec(req.from) == if req.from == Some(InputFormat::Ndjson) {
            OutputFormat::Ndjson
        } else {
            OutputFormat::Json
        },
        run_spec((Request { to: None, ..req })) == run_spec(
            (Request { to: Some(default_output_spec(req.from)), ..req }),
        ),
{
}

/// Pretty printing changes only JSON output, and flat output changes only
/// the document formats: raw and NDJSON output ignore it.
pub proof fn lemma_options_only_some_formats_read(req: Request)
    ensures
        requested_output(req) != OutputFormat::Json ==> run_spec(
            (Request { pretty: !req.pretty, ..req }),
        ) == run_spec(req),
        requested_output(req) == OutputFormat::Raw || requested_output(req) == OutputFormat::Ndjson
            ==> run_spec((Request { flat: !req.flat, ..req })) == run_spec(req),
{
}

// ---------------------------------------------------------------------------
// NDJSON output
// ---------------------------------------------------------------------------

/// NDJSON output of several records is one line per value selected in them,
/// record after record and path after path, and each line is the compact
/// JSON text of its value (a string quoted, as JSON writes it).
pub proof fn lemma_ndjson_lines_are_compact_json_of_every_selection(
    records: Seq<Json>,
    paths: Seq<PathModel>,
    allow: bool,
)
    requires
        forall|r: int| 0 <= r < records.len() ==> select_all_spec(#[trigger] records[r], paths, allow) is Ok,
    ensures
        ndjson_lines(records, paths, allow) matches Ok(ls) && ls.len() == every_selection(
            records,
            paths,
            allow,
        ).len() && forall|i: int|
            0 <= i < ls.len() ==> #[trigger] ls[i] == json_text(
                every_selection(records, paths, allow)[i].1,
            ),
    decreases records.len(),
{
    let whole = Seq::new(records.len(), |r: int| select_all_spec(records[r], paths, allow)->Ok_0);
    if records.len() > 0 {
        let init = records.drop_last();
        assert forall|r: int| 0 <= r < init.len() implies select_all_spec(
            #[trigger] init[r],
            paths,
            allow,
        ) is Ok by {
            assert(init[r] == records[r]);
        }
        lemma_ndjson_lines_are_compact_json_of_every_selection(init, paths, allow);
        let part = Seq::new(init.len(), |r: int| select_all_spec(init[r], paths, allow)->Ok_0);
        assert(whole.drop_last() =~= part);
        assert(select_all_spec(records.last(), paths, allow) is Ok);
        let pairs = select_all_spec(records.last(), paths, allow)->Ok_0;
        assert(whole.last() == pairs);
        let before = every_selection(init, paths, allow);
        let all = every_selection(records, paths, allow);
        assert(all == before + pairs);
        let ls0 = ndjson_lines(init, paths, allow)->Ok_0;
        let ls = ndjson_lines(records, paths, allow)->Ok_0;
        assert(ls == ls0 + crate::output::ndjson_lines_of(pairs));
        assert forall|i: int| 0 <= i < ls.len() implies #[trigger] ls[i] == json_text(all[i].1) by {
            if i < ls0.len() {
                assert(ls[i] == ls0[i]);
                assert(all[i] == before[i]);
            } else {
                assert(ls[i] == crate::output::ndjson_lines_of(pairs)[i - ls0.len()]);
                assert(all[i] == pairs[i - before.len()]);
            }
        }
    } else {
        assert(whole.flatten_alt() =~= Seq::<(Seq<char>, Json)>::empty());
    }
}

// ---------------------------------------------------------------------------
// Key order
// ---------------------------------------------------------------------------

/// Every object of a piece keeps its keys, and every array its indexes, in
/// ascending order, and its whole values hold their keys in order.
pub open spec fn piece_sorted(p: Piece) -> bool
    decreases p,
{
    match p {
        Piece::Whole(x) => sorted_json(x),
        Piece::Obj(es) => (forall|i: int, j: int|
            0 <= i < j < es.len() ==> key_lt(#[trigger] es[i].0, #[trigger] es[j].0)) && (forall|
            i: int,
        | 0 <= i < es.len() ==> piece_sorted(#[trigger] es[i].1)),
        Piece::Arr(xs) => (forall|i: int, j: int|
            0 <= i < j < xs.len() ==> #[trigger] xs[i].0 < #[trigger] xs[j].0) && (forall|i: int|
            0 <= i < xs.len() ==> piece_sorted(#[trigger] xs[i].1)),
    }
}

/// Entries in key order with values in key order.
pub open spec fn sorted_entries(es: Seq<(Seq<char>, Json)>) -> bool {
    sorted_keys(es) && forall|i: int| 0 <= i < es.len() ==> sorted_json(#[trigger] es[i].1)
}

proof fn lemma_piece_json_sorted(p: Piece)
    requires
        piece_sorted(p),
    ensures
        sorted_json(piece_json(p)),
    decreases p,
{
    match p {
        Piece::Obj(es) => {
            let j = piece_json(p)->Object_0;
            assert forall|i: int| 0 <= i < j.len() implies sorted_json(#[trigger] j[i].1) by {
                assert(j[i] == (es[i].0, piece_json(es[i].1)));
                assert(decreases_to!(p => es));
                assert(decreases_to!(es => es[i]));
                assert(decreases_to!(es[i] => es[i].1));
                lemma_piece_json_sorted(es[i].1);
            }
            assert forall|a: int, b: int| 0 <= a < b < j.len() implies key_lt(
                #[trigger] j[a].0,
                #[trigger] j[b].0,
            ) by {
                assert(j[a].0 == es[a].0 && j[b].0 == es[b].0);
            }
        },
        Piece::Arr(xs) => {
            let j = piece_json(p)->Array_0;
            assert forall|i: int| 0 <= i < j.len() implies sorted_json(#[trigger] j[i]) by {
                assert(j[i] == piece_json(xs[i].1));
                assert(decreases_to!(p => xs));
                assert(decreases_to!(xs => xs[i]));
                assert(decreases_to!(xs[i] => xs[i].1));
                lemma_piece_json_sorted(xs[i].1);
            }
        },
        _ => {},
    }
}

pub(crate) proof fn lemma_prune_sorted(root: Json, steps: Seq<Step>, display: Seq<char>, allow: bool)
    requires
        sorted_json(root),
    ensures
        prune_spec(root, steps, display, allow) matches Ok(Some(p)) ==> piece_sorted(p),
    decreases steps.len(), 1nat, 0nat,
{
    if steps.len() > 0 {
        let rest = steps.drop_first();
        match steps[0] {
            Step::Key(k) => {
                if let Json::Object(es) = root {
                    lemma_key_index(es, k);
                    if let Some(child) = lookup(es, k) {
                        let i = key_index(es, k)->Some_0;
                        assert(sorted_json(es[i].1));
                        lemma_prune_sorted(child, rest, display, allow);
                        if let Ok(Some(p)) = prune_spec(child, rest, display, allow) {
                            let single = seq![(k, p)];
                            assert(single[0].1 == p);
                        }
                    }
                }
            },
            Step::Index(i) => {
                if let Json::Array(a) = root {
                    if i < a.len() {
                        lemma_prune_sorted(a[i as int], rest, display, allow);
                        if let Ok(Some(p)) = prune_spec(a[i as int], rest, display, allow) {
                            assert(seq![(i, p)][0].1 == p);
                        }
                    }
                }
            },
            Step::Iter => {
                if let Json::Array(a) = root {
                    lemma_prune_each_sorted(a, rest, display, allow);
                }
            },
        }
    }
}

proof fn lemma_prune_each_sorted(a: Seq<Json>, rest: Seq<Step>, display: Seq<char>, allow: bool)
    requires
        forall|i: int| 0 <= i < a.len() ==> sorted_json(#[trigger] a[i]),
    ensures
        prune_each(a, rest, display, allow) matches Ok(xs) ==> {
            &&& forall|i: int| 0 <= i < xs.len() ==> piece_sorted(#[trigger] xs[i].1)
            &&& forall|i: int| 0 <= i < xs.len() ==> #[trigger] xs[i].0 < a.len()
            &&& forall|i: int, j: int| 0 <= i < j < xs.len() ==> #[trigger] xs[i].0 < #[trigger] xs[j].0
        },
    decreases rest.len() + 1, 0nat, a.len(),
{
    if a.len() > 0 {
        assert forall|i: int| 0 <= i < a.len() - 1 implies sorted_json(#[trigger] a.drop_last()[i]) by {
            assert(a.drop_last()[i] == a[i]);
        }
        lemma_prune_each_sorted(a.drop_last(), rest, display, allow);
        lemma_prune_sorted(a.last(), rest, display, allow);
        if let Ok(xs) = prune_each(a, rest, display, allow) {
            let ys = prune_each(a.drop_last(), rest, display, allow)->Ok_0;
            if xs.len() > ys.len() {
                assert(xs == ys.push(((a.len() - 1) as nat, xs.last().1)));
                assert forall|i: int| 0 <= i < xs.len() implies piece_sorted(#[trigger] xs[i].1) by {
                    if i < ys.len() {
                        assert(xs[i] == ys[i]);
                    }
                }
                assert forall|i: int| 0 <= i < xs.len() implies #[trigger] xs[i].0 < a.len() by {
                    if i < ys.len() {
                        assert(xs[i] == ys[i]);
                    }
                }
                assert forall|i: int, j: int| 0 <= i < j < xs.len() implies #[trigger] xs[i].0
                    < #[trigger] xs[j].0 by {
                    assert(xs[i] == ys[i]);
                    if j < ys.len() {
                        assert(xs[j] == ys[j]);
                    }
                }
            } else {
                assert(xs == ys);
                assert forall|i: int| 0 <= i < xs.len() implies #[trigger] xs[i].0 < a.len() by {
                    assert(xs[i] == ys[i]);
                }
            }
        }
    }
}

/// Keys sorted above `k`.
pub(crate) open spec fn keys_above(es: Seq<(Seq<char>, Piece)>, k: Seq<char>) -> bool {
    forall|i: int| 0 <= i < es.len() ==> key_lt(k, #[trigger] es[i].0)
}

pub(crate) open spec fn members_sorted(es: Seq<(Seq<char>, Piece)>) -> bool {
    &&& forall|i: int, j: int| 0 <= i < j < es.len() ==> key_lt(#[trigger] es[i].0, #[trigger] es[j].0)
    &&& forall|i: int| 0 <= i < es.len() ==> piece_sorted(#[trigger] es[i].1)
}

pub(crate) open spec fn indexes_above(xs: Seq<(nat, Piece)>, k: int) -> bool {
    forall|i: int| 0 <= i < xs.len() ==> k < #[trigger] xs[i].0
}

pub(crate) open spec fn items_sorted(xs: Seq<(nat, Piece)>) -> bool {
    &&& forall|i: int, j: int| 0 <= i < j < xs.len() ==> #[trigger] xs[i].0 < #[trigger] xs[j].0
    &&& forall|i: int| 0 <= i < xs.len() ==> piece_sorted(#[trigger] xs[i].1)
}

pub(crate) proof fn lemma_members_of(p: Piece, es: Seq<(Seq<char>, Piece)>)
    requires
        p == Piece::Obj(es),
        piece_sorted(p),
    ensures
        members_sorted(es),
{
    match p {
        Piece::Obj(fs) => {
            assert(fs == es);
            assert forall|i: int, j: int| 0 <= i < j < es.len() implies key_lt(
                #[trigger] es[i].0,
                #[trigger] es[j].0,
            ) by {
                assert(key_lt(fs[i].0, fs[j].0));
            }
            assert forall|i: int| 0 <= i < es.len() implies piece_sorted(#[trigger] es[i].1) by {
                assert(piece_sorted(fs[i].1));
            }
        },
        _ => {},
    }
}

pub(crate) proof fn lemma_items_of(p: Piece, xs: Seq<(nat, Piece)>)
    requires
        p == Piece::Arr(xs),
        piece_sorted(p),
    ensures
        items_sorted(xs),
{
    match p {
        Piece::Arr(ys) => {
            assert(ys == xs);
            assert forall|i: int, j: int| 0 <= i < j < xs.len() implies #[trigger] xs[i].0
                < #[trigger] xs[j].0 by {
                assert(ys[i].0 < ys[j].0);
            }
            assert forall|i: int| 0 <= i < xs.len() implies piece_sorted(#[trigger] xs[i].1) by {
                assert(piece_sorted(ys[i].1));
            }
        },
        _ => {},
    }
}

pub(crate) proof fn lemma_members_tail(es: Seq<(Seq<char>, Piece)>)
    requires
        es.len() > 0,
        members_sorted(es),
    ensures
        members_sorted(es.drop_first()),
        keys_above(es.drop_first(), es[0].0),
{
    let t = es.drop_first();
    assert forall|i: int, j: int| 0 <= i < j < t.len() implies key_lt(#[trigger] t[i].0, #[trigger] t[j].0) by {
        assert(t[i] == es[i + 1] && t[j] == es[j + 1]);
    }
    assert forall|i: int| 0 <= i < t.len() implies piece_sorted(#[trigger] t[i].1) by {
        assert(t[i] == es[i + 1]);
    }
    assert forall|i: int| 0 <= i < t.len() implies key_lt(es[0].0, #[trigger] t[i].0) by {
        assert(t[i] == es[i + 1]);
    }
}

pub(crate) proof fn lemma_items_tail(xs: Seq<(nat, Piece)>)
    requires
        xs.len() > 0,
        items_sorted(xs),
    ensures
        items_sorted(xs.drop_first()),
        indexes_above(xs.drop_first(), xs[0].0 as int),
{
    let t = xs.drop_first();
    assert forall|i: int, j: int| 0 <= i < j < t.len() implies #[trigger] t[i].0 < #[trigger] t[j].0 by {
        assert(t[i] == xs[i + 1] && t[j] == xs[j + 1]);
    }
    assert forall|i: int| 0 <= i < t.len() implies piece_sorted(#[trigger] t[i].1) by {
        assert(t[i] == xs[i + 1]);
    }
    assert forall|i: int| 0 <= i < t.len() implies xs[0].0 < #[trigger] t[i].0 by {
        assert(t[i] == xs[i + 1]);
    }
}

pub(crate) proof fn lemma_merge_sorted(a: Piece, b: Piece)
    requires
        piece_sorted(a),
        piece_sorted(b),
    ensures
        piece_sorted(merge_spec(a, b)),
    decreases b, 0nat,
{
    match (a, b) {
        (Piece::Whole(_), _) => {},
        (_, Piece::Whole(_)) => {},
        (Piece::Obj(ea), Piece::Obj(eb)) => {
            assert(decreases_to!(b => eb));
            lemma_merge_members_sorted(ea, eb, Seq::empty(), false);
        },
        (Piece::Arr(xa), Piece::Arr(xb)) => {
            assert(decreases_to!(b => xb));
            lemma_merge_items_sorted(xa, xb, 0, false);
        },
        _ => {},
    }
}

/// Merging sorted members gives sorted members, above any key that bounds
/// both sides.
proof fn lemma_merge_members_sorted(
    ea: Seq<(Seq<char>, Piece)>,
    eb: Seq<(Seq<char>, Piece)>,
    k: Seq<char>,
    bounded: bool,
)
    requires
        members_sorted(ea),
        members_sorted(eb),
        bounded ==> keys_above(ea, k) && keys_above(eb, k),
    ensures
        members_sorted(merge_members(ea, eb)),
        bounded ==> keys_above(merge_members(ea, eb), k),
    decreases eb, ea.len(),
{
    let m = merge_members(ea, eb);
    if ea.len() == 0 || eb.len() == 0 {
    } else {
        lemma_members_tail(ea);
        lemma_members_tail(eb);
        assert(decreases_to!(eb => eb.drop_first()));
        if key_lt(ea[0].0, eb[0].0) {
            assert forall|i: int| 0 <= i < eb.len() implies key_lt(ea[0].0, #[trigger] eb[i].0) by {
                if i > 0 {
                    assert(eb.drop_first()[i - 1] == eb[i]);
                    lemma_key_lt_transitive(ea[0].0, eb[0].0, eb[i].0);
                }
            }
            lemma_merge_members_sorted(ea.drop_first(), eb, ea[0].0, true);
            let r = merge_members(ea.drop_first(), eb);
            assert(m == seq![ea[0]] + r);
            lemma_cons_members_sorted(ea[0], r, k, bounded);
        } else if key_lt(eb[0].0, ea[0].0) {
            assert forall|i: int| 0 <= i < ea.len() implies key_lt(eb[0].0, #[trigger] ea[i].0) by {
                if i > 0 {
                    assert(ea.drop_first()[i - 1] == ea[i]);
                    lemma_key_lt_transitive(eb[0].0, ea[0].0, ea[i].0);
                }
            }
            lemma_merge_members_sorted(ea, eb.drop_first(), eb[0].0, true);
            let r = merge_members(ea, eb.drop_first());
            assert(m == seq![eb[0]] + r);
            lemma_cons_members_sorted(eb[0], r, k, bounded);
        } else {
            lemma_key_lt_total_or_equal(ea[0].0, eb[0].0);
            assert(decreases_to!(eb => eb[0]));
            assert(decreases_to!(eb[0] => eb[0].1));
            lemma_merge_sorted(ea[0].1, eb[0].1);
            assert forall|i: int| 0 <= i < eb.len() - 1 implies key_lt(ea[0].0, #[trigger] eb.drop_first()[i].0) by {}
            lemma_merge_members_sorted(ea.drop_first(), eb.drop_first(), ea[0].0, true);
            let r = merge_members(ea.drop_first(), eb.drop_first());
            let x = (ea[0].0, merge_spec(ea[0].1, eb[0].1));
            assert(m == seq![x] + r);
            if bounded {
                assert(keys_above(ea, k));
            }
            lemma_cons_members_sorted(x, r, k, bounded);
        }
    }
}

pub(crate) proof fn lemma_key_lt_total_or_equal(a: Seq<char>, b: Seq<char>)
    requires
        !key_lt(a, b),
        !key_lt(b, a),
    ensures
        a == b,
{
    if a != b {
        lemma_key_lt_total(a, b);
    }
}

proof fn lemma_cons_members_sorted(
    x: (Seq<char>, Piece),
    r: Seq<(Seq<char>, Piece)>,
    k: Seq<char>,
    bounded: bool,
)
    requires
        piece_sorted(x.1),
        members_sorted(r),
        keys_above(r, x.0),
        bounded ==> key_lt(k, x.0),
    ensures
        members_sorted(seq![x] + r),
        bounded ==> keys_above(seq![x] + r, k),
{
    let m = seq![x] + r;
    assert forall|i: int, j: int| 0 <= i < j < m.len() implies key_lt(#[trigger] m[i].0, #[trigger] m[j].0) by {
        assert(m[j] == r[j - 1]);
        if i > 0 {
            assert(m[i] == r[i - 1]);
        }
    }
    assert forall|i: int| 0 <= i < m.len() implies piece_sorted(#[trigger] m[i].1) by {
        if i > 0 {
            assert(m[i] == r[i - 1]);
        }
    }
    if bounded {
        assert forall|i: int| 0 <= i < m.len() implies key_lt(k, #[trigger] m[i].0) by {
            if i > 0 {
                assert(m[i] == r[i - 1]);
                lemma_key_lt_transitive(k, x.0, r[i - 1].0);
            }
        }
    }
}

/// Merging sorted items gives sorted items, above any index that bounds
/// both sides.
proof fn lemma_merge_items_sorted(xa: Seq<(nat, Piece)>, xb: Seq<(nat, Piece)>, k: int, bounded: bool)
    requires
        items_sorted(xa),
        items_sorted(xb),
        bounded ==> indexes_above(xa, k) && indexes_above(xb, k),
    ensures
        items_sorted(merge_items(xa, xb)),
        bounded ==> indexes_above(merge_items(xa, xb), k),
    decreases xb, xa.len(),
{
    let m = merge_items(xa, xb);
    if xa.len() == 0 || xb.len() == 0 {
    } else {
        lemma_items_tail(xa);
        lemma_items_tail(xb);
        assert(decreases_to!(xb => xb.drop_first()));
        let x;
        let r;
        if xa[0].0 < xb[0].0 {
            lemma_merge_items_sorted(xa.drop_first(), xb, xa[0].0 as int, true);
            x = xa[0];
            r = merge_items(xa.drop_first(), xb);
        } else if xb[0].0 < xa[0].0 {
            lemma_merge_items_sorted(xa, xb.drop_first(), xb[0].0 as int, true);
            x = xb[0];
            r = merge_items(xa, xb.drop_first());
        } else {
            assert(decreases_to!(xb => xb[0]));
            assert(decreases_to!(xb[0] => xb[0].1));
            lemma_merge_sorted(xa[0].1, xb[0].1);
            lemma_merge_items_sorted(xa.drop_first(), xb.drop_first(), xa[0].0 as int, true);
            x = (xa[0].0, merge_spec(xa[0].1, xb[0].1));
            r = merge_items(xa.drop_first(), xb.drop_first());
        }
        assert(m == seq![x] + r);
        assert forall|i: int, j: int| 0 <= i < j < m.len() implies #[trigger] m[i].0 < #[trigger] m[j].0 by {
            assert(m[j] == r[j - 1]);
            if i > 0 {
                assert(m[i] == r[i - 1]);
            }
        }
        assert forall|i: int| 0 <= i < m.len() implies piece_sorted(#[trigger] m[i].1) by {
            if i > 0 {
                assert(m[i] == r[i - 1]);
            }
        }
        if bounded {
            assert forall|i: int| 0 <= i < m.len() implies k < #[trigger] m[i].0 by {
                if i > 0 {
                    assert(m[i] == r[i - 1]);
                }
            }
        }
    }
}

proof fn lemma_structured_acc_sorted(root: Json, paths: Seq<PathModel>, allow: bool)
    requires
        sorted_json(root),
    ensures
        structured_acc(root, paths, allow) matches Ok(Some(v)) ==> piece_sorted(v),
    decreases paths.len(),
{
    if paths.len() > 0 {
        lemma_structured_acc_sorted(root, paths.drop_last(), allow);
        lemma_prune_sorted(root, paths.last().steps, paths.last().display, allow);
        if let Ok(Some(x)) = structured_acc(root, paths.drop_last(), allow) {
            if let Ok(Some(p)) = prune_spec(
                root,
                paths.last().steps,
                paths.last().display,
                allow,
            ) {
                lemma_merge_sorted(x, p);
            }
        }
    }
}

proof fn lemma_select_sorted(root: Json, steps: Seq<Step>, display: Seq<char>, allow: bool)
    requires
        sorted_json(root),
    ensures
        select_spec(root, steps, display, allow) matches Ok(vs) ==> forall|i: int|
            0 <= i < vs.len() ==> sorted_json(#[trigger] vs[i]),
    decreases steps.len(), 1nat, 0nat,
{
    if steps.len() == 0 {
        assert(seq![root][0] == root);
    } else {
        let rest = steps.drop_first();
        match steps[0] {
            Step::Key(k) => {
                if let Json::Object(es) = root {
                    lemma_key_index(es, k);
                    if let Some(child) = lookup(es, k) {
                        let i = key_index(es, k)->Some_0;
                        assert(sorted_json(es[i].1));
                        lemma_select_sorted(child, rest, display, allow);
                    }
                }
            },
            Step::Index(i) => {
                if let Json::Array(a) = root {
                    if i < a.len() {
                        lemma_select_sorted(a[i as int], rest, display, allow);
                    }
                }
            },
            Step::Iter => {
                if let Json::Array(a) = root {
                    lemma_select_each_sorted(a, rest, display, allow);
                }
            },
        }
    }
}

proof fn lemma_select_each_sorted(a: Seq<Json>, rest: Seq<Step>, display: Seq<char>, allow: bool)
    requires
        forall|i: int| 0 <= i < a.len() ==> sorted_json(#[trigger] a[i]),
    ensures
        select_each(a, rest, display, allow) matches Ok(vs) ==> forall|i: int|
            0 <= i < vs.len() ==> sorted_json(#[trigger] vs[i]),
    decreases rest.len() + 1, 0nat, a.len(),
{
    if a.len() > 0 {
        assert forall|i: int| 0 <= i < a.len() - 1 implies sorted_json(#[trigger] a.drop_last()[i]) by {
            assert(a.drop_last()[i] == a[i]);
        }
        lemma_select_each_sorted(a.drop_last(), rest, display, allow);
        lemma_select_sorted(a.last(), rest, display, allow);
        if let Ok(vs) = select_each(a, rest, display, allow) {
            let xs = select_each(a.drop_last(), rest, display, allow)->Ok_0;
            let ys = select_spec(a.last(), rest, display, allow)->Ok_0;
            assert(vs == xs + ys);
            assert forall|i: int| 0 <= i < vs.len() implies sorted_json(#[trigger] vs[i]) by {
                if i < xs.len() {
                    assert(vs[i] == xs[i]);
                } else {
                    assert(vs[i] == ys[i - xs.len()]);
                }
            }
        }
    }
}

/// Entries in key order with values in key order.
proof fn lemma_flat_acc_sorted(root: Json, paths: Seq<PathModel>, allow: bool)
    requires
        sorted_json(root),
    ensures
        flat_acc(root, paths, allow) matches Ok(obj) ==> sorted_entries(obj),
    decreases paths.len(),
{
    lemma_flat_names_sorted(root, paths, allow);
    if paths.len() > 0 {
        lemma_flat_acc_sorted(root, paths.drop_last(), allow);
        let p = paths.last();
        lemma_select_sorted(root, p.steps, p.display, allow);
        if let Ok(obj) = flat_acc(root, paths.drop_last(), allow) {
            if let Ok(values) = select_spec(root, p.steps, p.display, allow) {
                if let Some(name) = last_key(p.steps) {
                    if !has_key(obj, name) {
                        let e = (name, flat_value(p.steps, values));
                        assert(sorted_json(e.1)) by {
                            if !(has_iter_step(p.steps) || values.len() != 1) {
                                assert(sorted_json(values[0]));
                            }
                        }
                        let pos = insert_pos(obj, name);
                        lemma_insert_pos(obj, name);
                        obj.insert_ensures(pos, e);
                        let out = insert_entry(obj, e);
                        assert forall|i: int| 0 <= i < out.len() implies sorted_json(
                            #[trigger] out[i].1,
                        ) by {
                            if i < pos {
                                assert(out[i] == obj[i]);
                            } else if i > pos {
                                assert(out[i] == obj[i - 1]);
                            }
                        }
                    }
                }
            }
        }
    }
}

proof fn lemma_select_all_sorted(root: Json, paths: Seq<PathModel>, allow: bool)
    requires
        sorted_json(root),
    ensures
        select_all_spec(root, paths, allow) matches Ok(ps) ==> forall|i: int|
            0 <= i < ps.len() ==> sorted_json(#[trigger] ps[i].1),
    decreases paths.len(),
{
    if paths.len() > 0 {
        lemma_select_all_sorted(root, paths.drop_last(), allow);
        let p = paths.last();
        lemma_select_sorted(root, p.steps, p.display, allow);
        if let Ok(ps) = select_all_spec(root, paths, allow) {
            let xs = select_all_spec(root, paths.drop_last(), allow)->Ok_0;
            let vs = select_spec(root, p.steps, p.display, allow)->Ok_0;
            let t = tagged(p.display, vs);
            assert(ps == xs + t);
            assert forall|i: int| 0 <= i < ps.len() implies sorted_json(#[trigger] ps[i].1) by {
                if i < xs.len() {
                    assert(ps[i] == xs[i]);
                } else {
                    assert(ps[i] == t[i - xs.len()]);
                    assert(t[i - xs.len()].1 == vs[i - xs.len()]);
                }
            }
        }
    }
}

/// Object keys stay in ascending order: projecting a document whose
/// objects hold their keys in ascending order (as every reader gives them)
/// yields documents that do too, structured or flat, and so are the selected
/// values.
pub proof fn lemma_projection_keeps_keys_sorted(root: Json, paths: Seq<PathModel>, allow: bool)
    requires
        sorted_json(root),
    ensures
        structured_spec(root, paths, allow) matches Ok(v) ==> sorted_json(v),
        flat_spec(root, paths, allow) matches Ok(v) ==> sorted_json(v),
        select_all_spec(root, paths, allow) matches Ok(ps) ==> forall|i: int|
            0 <= i < ps.len() ==> sorted_json(#[trigger] ps[i].1),
{
    lemma_structured_acc_sorted(root, paths, allow);
    if let Ok(Some(p)) = structured_acc(root, paths, allow) {
        lemma_piece_json_sorted(p);
    }
    lemma_flat_acc_sorted(root, paths, allow);
    lemma_select_all_sorted(root, paths, allow);
}

proof fn lemma_project_records_sorted(
    records: Seq<Json>,
    paths: Seq<PathModel>,
    flat: bool,
    allow: bool,
)
    requires
        forall|i: int| 0 <= i < records.len() ==> sorted_json(#[trigger] records[i]),
    ensures
        project_records(records, paths, flat, allow) matches Ok(docs) ==> forall|i: int|
            0 <= i < docs.len() ==> sorted_json(#[trigger] docs[i]),
    decreases records.len(),
{
    if records.len() > 0 {
        assert forall|i: int| 0 <= i < records.len() - 1 implies sorted_json(
            #[trigger] records.drop_last()[i],
        ) by {
            assert(records.drop_last()[i] == records[i]);
        }
        lemma_project_records_sorted(records.drop_last(), paths, flat, allow);
        lemma_projection_keeps_keys_sorted(records.last(), paths, allow);
        if let Ok(docs) = project_records(records, paths, flat, allow) {
            let before = project_records(records.drop_last(), paths, flat, allow)->Ok_0;
            assert forall|i: int| 0 <= i < docs.len() implies sorted_json(#[trigger] docs[i]) by {
                if i < before.len() {
                    assert(docs[i] == before[i]);
                }
            }
        }
    }
}

/// The document that a projection request hands to the JSON, YAML or TOML
/// writer holds every object's keys in ascending order, when the records do
/// (as every reader gives them).
pub proof fn lemma_rendered_document_keeps_keys_sorted(
    records: Seq<Json>,
    paths: Seq<PathModel>,
    flat: bool,
    allow: bool,
)
    requires
        forall|i: int| 0 <= i < records.len() ==> sorted_json(#[trigger] records[i]),
    ensures
        project_records(records, paths, flat, allow) matches Ok(docs) ==> sorted_json(
            collapse_spec(docs),
        ),
{
    lemma_project_records_sorted(records, paths, flat, allow);
}


// ---------------------------------------------------------------------------
// With keys in order, the same value is an equal value
// ---------------------------------------------------------------------------

/// A strictly increasing map from `0..n` into `0..m` needs `n <= m`, and
/// moves each `i` at least `i` and at most `m - n + i`.
proof fn lemma_increasing_bounds(f: spec_fn(int) -> int, n: int, m: int)
    requires
        0 <= n,
        0 <= m,
        forall|i: int| 0 <= i < n ==> 0 <= #[trigger] f(i) < m,
        forall|i: int, j: int| 0 <= i < j < n ==> #[trigger] f(i) < #[trigger] f(j),
    ensures
        n <= m,
        forall|i: int| 0 <= i < n ==> i <= #[trigger] f(i) <= m - n + i,
    decreases n,
{
    if n > 0 {
        let top = f(n - 1);
        assert(0 <= f(n - 1) < m);
        assert forall|i: int| 0 <= i < n - 1 implies 0 <= #[trigger] f(i) < top by {}
        lemma_increasing_bounds(f, n - 1, top);
        assert forall|i: int| 0 <= i < n implies i <= #[trigger] f(i) <= m - n + i by {
            if i < n - 1 {
                assert(f(i) <= top - (n - 1) + i);
            }
        }
    }
}

/// In entries with keys in order, a key that comes before another sits
/// before it.
proof fn lemma_sorted_position(es: Seq<(Seq<char>, Json)>, a: int, b: int)
    requires
        sorted_keys(es),
        0 <= a < es.len(),
        0 <= b < es.len(),
        key_lt(es[a].0, es[b].0),
    ensures
        a < b,
{
    if a == b {
        lemma_key_lt_irreflexive(es[a].0);
    } else if a > b {
        lemma_key_lt_transitive(es[a].0, es[b].0, es[a].0);
        lemma_key_lt_irreflexive(es[a].0);
    }
}

/// Where each key of `ex` sits in `ey`, when every key of `ex` is in `ey`:
/// strictly increasing when both hold their keys in order.
proof fn lemma_key_positions(ex: Seq<(Seq<char>, Json)>, ey: Seq<(Seq<char>, Json)>)
    requires
        sorted_keys(ex),
        sorted_keys(ey),
        forall|i: int| 0 <= i < ex.len() ==> #[trigger] has_key(ey, ex[i].0),
    ensures
        ex.len() <= ey.len(),
        forall|i: int|
            0 <= i < ex.len() ==> (#[trigger] key_index(ey, ex[i].0) matches Some(p) && i <= p),
{
    let f = |i: int| key_index(ey, ex[i].0)->Some_0;
    assert forall|i: int| 0 <= i < ex.len() implies 0 <= #[trigger] f(i) < ey.len() && ey[f(i)].0
        == ex[i].0 by {
        assert(has_key(ey, ex[i].0));
        lemma_key_index(ey, ex[i].0);
    }
    assert forall|i: int, j: int| 0 <= i < j < ex.len() implies #[trigger] f(i) < #[trigger] f(j) by {
        assert(key_lt(ex[i].0, ex[j].0));
        assert(ey[f(i)].0 == ex[i].0 && ey[f(j)].0 == ex[j].0);
        lemma_sorted_position(ey, f(i), f(j));
    }
    lemma_increasing_bounds(f, ex.len() as int, ey.len() as int);
    assert forall|i: int| 0 <= i < ex.len() implies (#[trigger] key_index(ey, ex[i].0) matches Some(
        p,
    ) && i <= p) by {
        assert(has_key(ey, ex[i].0));
        lemma_key_index(ey, ex[i].0);
        assert(i <= f(i));
    }
}

/// Two documents with keys in order that are the same value are equal.
pub proof fn lemma_same_sorted_equal(x: Json, y: Json)
    requires
        same_json(x, y),
        sorted_json(x),
        sorted_json(y),
    ensures
        x == y,
    decreases x,
{
    match x {
        Json::Object(ex) => {
            let ey = y->Object_0;
            assert forall|i: int| 0 <= i < ex.len() implies #[trigger] has_key(ey, ex[i].0) by {
                assert(match lookup(ey, ex[i].0) {
                    Some(v) => part_of(ex[i].1, v),
                    None => false,
                });
                lemma_key_index(ey, ex[i].0);
            }
            assert forall|j: int| 0 <= j < ey.len() implies #[trigger] has_key(ex, ey[j].0) by {
                assert(match lookup(ex, ey[j].0) {
                    Some(v) => part_of(ey[j].1, v),
                    None => false,
                });
                lemma_key_index(ex, ey[j].0);
            }
            lemma_key_positions(ex, ey);
            lemma_key_positions(ey, ex);
            assert forall|i: int| 0 <= i < ex.len() implies ex[i] == ey[i] by {
                let p = key_index(ey, ex[i].0)->Some_0;
                lemma_key_index(ey, ex[i].0);
                let q = key_index(ex, ey[p].0)->Some_0;
                lemma_key_index(ex, ey[p].0);
                assert(i <= p);
                assert(p <= q);
                lemma_sorted_keys_distinct(ex);
                lemma_key_index_distinct(ex, i);
                assert(q == i);
                assert(ey[i].0 == ex[i].0);
                assert(match lookup(ey, ex[i].0) {
                    Some(v) => part_of(ex[i].1, v),
                    None => false,
                });
                assert(match lookup(ex, ey[i].0) {
                    Some(v) => part_of(ey[i].1, v),
                    None => false,
                });
                lemma_sorted_keys_distinct(ey);
                lemma_key_index_distinct(ey, i);
                assert(sorted_json(ex[i].1));
                assert(sorted_json(ey[i].1));
                assert(decreases_to!(x => ex));
                assert(decreases_to!(ex => ex[i]));
                assert(decreases_to!(ex[i] => ex[i].1));
                lemma_same_sorted_equal(ex[i].1, ey[i].1);
            }
            assert(ex =~= ey);
        },
        Json::Array(ax) => {
            let ay = y->Array_0;
            assert forall|i: int| 0 <= i < ax.len() implies ax[i] == ay[i] by {
                assert(part_of(ax[i], ay[i]));
                assert(part_of(ay[i], ax[i]));
                assert(decreases_to!(x => ax));
                assert(decreases_to!(ax => ax[i]));
                lemma_same_sorted_equal(ax[i], ay[i]);
            }
            assert(ax =~= ay);
        },
        _ => {},
    }
}

} // verus!
