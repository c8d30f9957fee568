//! Dotpath parsing.
//!
//! Grammar (deliberately small):
//! - `.key`           bareword key (`[A-Za-z0-9_-]+`)
//! - `["k.e y"]`      quoted key, for keys containing dots, spaces or brackets
//! - `[0]`            array index (non-negative)
//! - `[]`             iterate every element of an array
//! - `.`              the whole document (root)
//!
//! Segments chain freely: `.a.b[0].c[].d`. Multiple paths are comma-separated
//! at the top level; commas inside `[...]` or quotes are literal.

use crate::error::{debug_char, debug_char_text, DotpickError, Failure};
use crate::text::{owned, string_of, to_chars, trim, trim_chars};
use vstd::prelude::*;

verus! {

/// One step in a dotpath.
#[derive(Debug, Clone, PartialEq, Eq)]
pub enum Segment {
    /// Object key access.
    Key(String),
    /// Array index access.
    Index(usize),
    /// Iterate every element of an array.
    Iter,
}

/// A parsed dotpath plus its text as written (kept for error messages).
#[derive(Debug, Clone, PartialEq, Eq)]
pub struct Path {
    pub segments: Vec<Segment>,
    pub display: String,
}

/// The model of a [`Segment`].
pub enum Step {
    Key(Seq<char>),
    Index(nat),
    Iter,
}

/// The model of a [`Path`].
pub struct PathModel {
    pub steps: Seq<Step>,
    pub display: Seq<char>,
}

impl View for Segment {
    type V = Step;

    open spec fn view(&self) -> Step {
        match self {
            Segment::Key(k) => Step::Key(k@),
            Segment::Index(i) => Step::Index(*i as nat),
            Segment::Iter => Step::Iter,
        }
    }
}

pub open spec fn steps_of_segments(s: Seq<Segment>) -> Seq<Step> {
    s.map_values(|g: Segment| g@)
}

impl View for Path {
    type V = PathModel;

    open spec fn view(&self) -> PathModel {
        PathModel { steps: steps_of_segments(self.segments@), display: self.display@ }
    }
}

/// The models of a list of paths.
pub open spec fn paths_view(ps: Seq<Path>) -> Seq<PathModel> {
    ps.map_values(|p: Path| p@)
}

// ---------------------------------------------------------------------------
// Character classes and runs
// ---------------------------------------------------------------------------

pub open spec fn is_digit_char(c: char) -> bool {
    '0' <= c <= '9'
}

pub open spec fn is_bareword_char(c: char) -> bool {
    ||| 'a' <= c <= 'z'
    ||| 'A' <= c <= 'Z'
    ||| is_digit_char(c)
    ||| c == '_'
    ||| c == '-'
}

/// The classes of characters whose leading runs the parser measures.
#[derive(Clone, Copy)]
pub enum CharClass {
    Bareword,
    Digit,
    /// Any character but the given one.
    Other(char),
}

pub open spec fn in_class(c: char, cls: CharClass) -> bool {
    match cls {
        CharClass::Bareword => is_bareword_char(c),
        CharClass::Digit => is_digit_char(c),
        CharClass::Other(q) => c != q,
    }
}

/// Length of the longest prefix of `t` whose characters are all in `cls`.
pub open spec fn class_run(t: Seq<char>, cls: CharClass) -> nat
    decreases t.len(),
{
    if t.len() > 0 && in_class(t[0], cls) {
        1 + class_run(t.drop_first(), cls)
    } else {
        0
    }
}

pub proof fn lemma_class_run_bound(t: Seq<char>, cls: CharClass)
    ensures
        class_run(t, cls) <= t.len(),
    decreases t.len(),
{
    if t.len() > 0 && in_class(t[0], cls) {
        lemma_class_run_bound(t.drop_first(), cls);
    }
}

pub proof fn lemma_class_run_exact(t: Seq<char>, cls: CharClass, k: int)
    requires
        0 <= k <= t.len(),
        forall|i: int| 0 <= i < k ==> #[trigger] in_class(t[i], cls),
        k < t.len() ==> !in_class(t[k], cls),
    ensures
        class_run(t, cls) == k,
    decreases t.len(),
{
    if k > 0 {
        assert(in_class(t[0], cls));
        assert forall|i: int| 0 <= i < k - 1 implies #[trigger] in_class(t.drop_first()[i], cls) by {
            assert(t.drop_first()[i] == t[i + 1]);
        }
        lemma_class_run_exact(t.drop_first(), cls, k - 1);
    }
}

/// The number that a string of decimal digits denotes.
pub open spec fn digits_value(s: Seq<char>) -> nat
    decreases s.len(),
{
    if s.len() == 0 {
        0
    } else {
        digits_value(s.drop_last()) * 10 + ((s.last() as u32) - 48) as nat
    }
}

proof fn lemma_digits_value_prefix(s: Seq<char>, k: int)
    requires
        0 <= k <= s.len(),
        forall|i: int| 0 <= i < s.len() ==> #[trigger] is_digit_char(s[i]),
    ensures
        digits_value(s.take(k)) <= digits_value(s),
    decreases s.len(),
{
    if k < s.len() {
        assert(s.drop_last().take(k) =~= s.take(k));
        assert forall|i: int| 0 <= i < s.drop_last().len() implies #[trigger] is_digit_char(
            s.drop_last()[i],
        ) by {
            assert(s.drop_last()[i] == s[i]);
        }
        lemma_digits_value_prefix(s.drop_last(), k);
        assert(is_digit_char(s[s.len() - 1]));
    } else {
        assert(s.take(k) =~= s);
    }
}

// ---------------------------------------------------------------------------
// The grammar
// ---------------------------------------------------------------------------

/// Prepends `head` to a successful parse, or passes an error through.
pub open spec fn prepend(
    head: Seq<Step>,
    r: Result<Seq<Step>, Seq<char>>,
) -> Result<Seq<Step>, Seq<char>> {
    match r {
        Ok(rest) => Ok(head + rest),
        Err(m) => Err(m),
    }
}

/// The steps that the text `t` denotes, or the message of its first
/// syntax error; `t` is the part of a dotpath after the optional leading dot.
pub open spec fn steps_of(t: Seq<char>) -> Result<Seq<Step>, Seq<char>>
    decreases t.len(),
{
    if t.len() == 0 {
        Ok(Seq::empty())
    } else if t[0] == '.' {
        let n = class_run(t.drop_first(), CharClass::Bareword) as int;
        if n == 0 {
            Err("expected a key after '.'"@)
        } else {
            proof {
                lemma_class_run_bound(t.drop_first(), CharClass::Bareword);
            }
            prepend(seq![Step::Key(t.subrange(1, 1 + n))], steps_of(t.skip(1 + n)))
        }
    } else if t[0] == '[' {
        if t.len() > 1 && t[1] == ']' {
            prepend(seq![Step::Iter], steps_of(t.skip(2)))
        } else if t.len() > 1 && (t[1] == '"' || t[1] == '\'') {
            let m = class_run(t.skip(2), CharClass::Other(t[1])) as int;
            if 2 + m >= t.len() {
                Err("unterminated quoted key"@)
            } else if 3 + m >= t.len() || t[3 + m] != ']' {
                Err("expected ']' after quoted key"@)
            } else {
                prepend(seq![Step::Key(t.subrange(2, 2 + m))], steps_of(t.skip(4 + m)))
            }
        } else {
            let n = class_run(t.drop_first(), CharClass::Digit) as int;
            if n == 0 {
                Err("expected an index, '[]' or a quoted key"@)
            } else if digits_value(t.subrange(1, 1 + n)) > usize::MAX {
                Err("index is too large"@)
            } else if 1 + n >= t.len() || t[1 + n] != ']' {
                Err("expected ']' after index"@)
            } else {
                prepend(
                    seq![Step::Index(digits_value(t.subrange(1, 1 + n)))],
                    steps_of(t.skip(2 + n)),
                )
            }
        }
    } else if is_bareword_char(t[0]) {
        let n = class_run(t, CharClass::Bareword) as int;
        proof {
            lemma_class_run_bound(t, CharClass::Bareword);
        }
        prepend(seq![Step::Key(t.take(n))], steps_of(t.skip(n)))
    } else {
        Err("unexpected character "@ + debug_char_text(t[0]))
    }
}

/// The path that one (comma-free) dotpath text denotes.
pub open spec fn parse_one_spec(raw: Seq<char>) -> Result<PathModel, Failure> {
    let display = trim(raw);
    if display.len() == 0 {
        Err(Failure::PathSyntax { path: raw, message: "empty path"@ })
    } else if display == "."@ {
        Ok(PathModel { steps: Seq::empty(), display })
    } else {
        let body = if display[0] == '.' {
            display.drop_first()
        } else {
            display
        };
        match steps_of(body) {
            Ok(steps) => Ok(PathModel { steps, display }),
            Err(m) => Err(Failure::PathSyntax { path: display, message: m }),
        }
    }
}

/// The scanner state while splitting on top-level commas.
pub struct SplitState {
    pub parts: Seq<Seq<char>>,
    pub cur: Seq<char>,
    pub depth: int,
    pub quote: Option<char>,
}

pub open spec fn split_step(st: SplitState, c: char) -> SplitState {
    match st.quote {
        Some(q) => SplitState {
            cur: st.cur.push(c),
            quote: if c == q {
                None
            } else {
                Some(q)
            },
            ..st
        },
        None => if c == '"' || c == '\'' {
            SplitState { quote: Some(c), cur: st.cur.push(c), ..st }
        } else if c == '[' {
            SplitState { depth: st.depth + 1, cur: st.cur.push(c), ..st }
        } else if c == ']' {
            SplitState { depth: st.depth - 1, cur: st.cur.push(c), ..st }
        } else if c == ',' && st.depth == 0 {
            SplitState { parts: st.parts.push(trim(st.cur)), cur: Seq::empty(), ..st }
        } else {
            SplitState { cur: st.cur.push(c), ..st }
        },
    }
}

pub open spec fn split_state(raw: Seq<char>) -> SplitState
    decreases raw.len(),
{
    if raw.len() == 0 {
        SplitState { parts: Seq::empty(), cur: Seq::empty(), depth: 0, quote: None }
    } else {
        split_step(split_state(raw.drop_last()), raw.last())
    }
}

/// The trimmed pieces of `raw` between top-level commas.
pub open spec fn split_parts(raw: Seq<char>) -> Seq<Seq<char>> {
    let st = split_state(raw);
    st.parts.push(trim(st.cur))
}

/// Parses each piece in order, stopping at the first error.
pub open spec fn parse_all(parts: Seq<Seq<char>>) -> Result<Seq<PathModel>, Failure>
    decreases parts.len(),
{
    if parts.len() == 0 {
        Ok(Seq::empty())
    } else {
        match parse_all(parts.drop_last()) {
            Err(e) => Err(e),
            Ok(ps) => match parse_one_spec(parts.last()) {
                Err(e) => Err(e),
                Ok(p) => Ok(ps.push(p)),
            },
        }
    }
}

/// The paths that a comma-separated list of dotpaths denotes.
pub open spec fn parse_paths_spec(raw: Seq<char>) -> Result<Seq<PathModel>, Failure> {
    let parts = split_parts(raw);
    if parts.len() == 1 && parts[0].len() == 0 {
        Err(Failure::PathSyntax { path: raw, message: "no paths given"@ })
    } else {
        parse_all(parts)
    }
}

/// The last object-key step, if any.
pub open spec fn last_key(steps: Seq<Step>) -> Option<Seq<char>>
    decreases steps.len(),
{
    if steps.len() == 0 {
        None
    } else {
        match steps.last() {
            Step::Key(k) => Some(k),
            _ => last_key(steps.drop_last()),
        }
    }
}

/// Whether some step iterates an array.
pub open spec fn has_iter_step(steps: Seq<Step>) -> bool {
    exists|i: int| 0 <= i < steps.len() && #[trigger] steps[i] is Iter
}

// ---------------------------------------------------------------------------
// Implementation
// ---------------------------------------------------------------------------

impl Path {
    /// The last object-key segment, used to name leaves in `--flat` output.
    pub fn leaf_name(&self) -> (r: Option<&str>)
        ensures
            r matches Some(s) ==> last_key(self@.steps) == Some(s@),
            r is None ==> last_key(self@.steps) is None,
    {
        let ghost steps = self@.steps;
        let mut i = self.segments.len();
        assert(steps.take(i as int) =~= steps);
        while i > 0
            invariant
                i <= self.segments@.len(),
                steps == self@.steps,
                last_key(steps) == last_key(steps.take(i as int)),
            decreases i,
        {
            i -= 1;
            assert(steps.take(i + 1).drop_last() =~= steps.take(i as int));
            match &self.segments[i] {
                Segment::Key(k) => {
                    return Some(k.as_str());
                },
                _ => {},
            }
        }
        None
    }

    /// Whether this path iterates an array (`[]`), and so can match many values.
    pub fn has_iter(&self) -> (r: bool)
        ensures
            r == has_iter_step(self@.steps),
    {
        let mut i: usize = 0;
        while i < self.segments.len()
            invariant
                i <= self.segments@.len(),
                forall|j: int| 0 <= j < i ==> !(#[trigger] self@.steps[j] is Iter),
            decreases self.segments.len() - i,
        {
            if let Segment::Iter = self.segments[i] {
                assert(self@.steps[i as int] is Iter);
                return true;
            }
            i += 1;
        }
        false
    }
}

fn is_bareword(c: char) -> (r: bool)
    ensures
        r == is_bareword_char(c),
{
    ('a' <= c && c <= 'z') || ('A' <= c && c <= 'Z') || ('0' <= c && c <= '9') || c == '_' || c
        == '-'
}

fn is_digit(c: char) -> (r: bool)
    ensures
        r == is_digit_char(c),
{
    '0' <= c && c <= '9'
}

fn syntax(path: &str, message: &str) -> (r: DotpickError)
    ensures
        r@ == (Failure::PathSyntax { path: path@, message: message@ }),
{
    DotpickError::PathSyntax { path: owned(path), message: owned(message) }
}

fn char_in_class(c: char, cls: CharClass) -> (r: bool)
    ensures
        r == in_class(c, cls),
{
    match cls {
        CharClass::Bareword => is_bareword(c),
        CharClass::Digit => is_digit(c),
        CharClass::Other(q) => c != q,
    }
}

/// End of the run of `cls` characters in `s` that starts at `from`.
fn scan_run(s: &Vec<char>, from: usize, cls: CharClass) -> (r: usize)
    requires
        from <= s@.len(),
    ensures
        from <= r <= s@.len(),
        r - from == class_run(s@.skip(from as int), cls),
{
    let mut i = from;
    while i < s.len() && char_in_class(s[i], cls)
        invariant
            from <= i <= s@.len(),
            forall|j: int| from <= j < i ==> #[trigger] in_class(s@[j], cls),
        decreases s@.len() - i,
    {
        i += 1;
    }
    proof {
        let t = s@.skip(from as int);
        assert forall|j: int| 0 <= j < i - from implies #[trigger] in_class(t[j], cls) by {
            assert(t[j] == s@[j + from]);
        }
        if i < s@.len() {
            assert(t[i - from] == s@[i as int]);
        }
        lemma_class_run_exact(t, cls, i - from);
    }
    i
}

/// The value of the decimal digits `s[from..to]`, or `None` if it exceeds `usize::MAX`.
fn digits_to_usize(s: &Vec<char>, from: usize, to: usize) -> (r: Option<usize>)
    requires
        from <= to <= s@.len(),
        forall|j: int| from <= j < to ==> #[trigger] is_digit_char(s@[j]),
    ensures
        r matches Some(v) ==> v == digits_value(s@.subrange(from as int, to as int)),
        r is None ==> digits_value(s@.subrange(from as int, to as int)) > usize::MAX,
{
    let ghost d = s@.subrange(from as int, to as int);
    let mut v: usize = 0;
    let mut k = from;
    while k < to
        invariant
            from <= k <= to <= s@.len(),
            d == s@.subrange(from as int, to as int),
            forall|j: int| from <= j < to ==> #[trigger] is_digit_char(s@[j]),
            v == digits_value(s@.subrange(from as int, k as int)),
        decreases to - k,
    {
        let c = s[k];
        assert(is_digit_char(s@[k as int]));
        let digit = ((c as u32) - 48) as usize;
        assert(s@.subrange(from as int, k + 1).drop_last() =~= s@.subrange(from as int, k as int));
        let next = match v.checked_mul(10) {
            Some(w) => w.checked_add(digit),
            None => None,
        };
        match next {
            Some(w) => {
                v = w;
            },
            None => {
                proof {
                    assert forall|j: int| 0 <= j < d.len() implies #[trigger] is_digit_char(d[j]) by {
                        assert(d[j] == s@[j + from]);
                        assert(is_digit_char(s@[j + from]));
                    }
                    lemma_digits_value_prefix(d, k + 1 - from);
                    assert(d.take(k + 1 - from) =~= s@.subrange(from as int, k + 1));
                }
                return None;
            },
        }
        k += 1;
    }
    Some(v)
}

proof fn lemma_prepend_push(acc: Seq<Step>, x: Step, r: Result<Seq<Step>, Seq<char>>)
    ensures
        prepend(acc, prepend(seq![x], r)) == prepend(acc.push(x), r),
{
    match r {
        Ok(rest) => {
            assert(acc + (seq![x] + rest) =~= acc.push(x) + rest);
        },
        Err(_) => {},
    }
}

/// What one token at `s[i..]` contributes: the segment and where the next token starts.
pub open spec fn token_ok(s: Seq<char>, i: int, seg: Step, j: int) -> bool {
    &&& i < j <= s.len()
    &&& steps_of(s.skip(i)) == prepend(seq![seg], steps_of(s.skip(j)))
}

/// Parses the bracketed token (`[]`, `["key"]` or `[n]`) that starts at `s[i]`.
fn bracket_token(s: &Vec<char>, i: usize) -> (r: Result<(Segment, usize), String>)
    requires
        i < s@.len(),
        s@[i as int] == '[',
    ensures
        r matches Ok((seg, j)) ==> token_ok(s@, i as int, seg@, j as int),
        r matches Err(m) ==> steps_of(s@.skip(i as int)) == Err::<Seq<Step>, Seq<char>>(m@),
{
    let n = s.len();
    let ghost t = s@.skip(i as int);
    assert(t[0] == s@[i as int]);
    if i + 1 < n && s[i + 1] == ']' {
        assert(t[1] == s@[i + 1]);
        assert(t.skip(2) =~= s@.skip(i + 2));
        return Ok((Segment::Iter, i + 2));
    }
    if i + 1 < n && (s[i + 1] == '"' || s[i + 1] == '\'') {
        let quote = s[i + 1];
        assert(t[1] == quote);
        let from = i + 2;
        let close = scan_run(s, from, CharClass::Other(quote));
        assert(s@.skip(from as int) =~= t.skip(2));
        if close >= n {
            return Err(owned("unterminated quoted key"));
        }
        if close + 1 >= n || s[close + 1] != ']' {
            proof {
                if close + 1 < n {
                    assert(t[3 + (close - from)] == s@[close + 1]);
                }
            }
            return Err(owned("expected ']' after quoted key"));
        }
        let key = string_of(s, from, close);
        assert(t[3 + (close - from)] == s@[close + 1]);
        assert(t.subrange(2, 2 + (close - from)) =~= s@.subrange(from as int, close as int));
        assert(t.skip(4 + (close - from)) =~= s@.skip(close + 2));
        return Ok((Segment::Key(key), close + 2));
    }
    proof {
        if i + 1 < n {
            assert(t[1] == s@[i + 1]);
        }
    }
    let from = i + 1;
    let end = scan_run(s, from, CharClass::Digit);
    assert(s@.skip(from as int) =~= t.drop_first());
    if end == from {
        return Err(owned("expected an index, '[]' or a quoted key"));
    }
    proof {
        let u = s@.skip(from as int);
        assert forall|j: int| from <= j < end implies #[trigger] is_digit_char(s@[j]) by {
            lemma_class_run_prefix(u, CharClass::Digit, j - from);
            assert(u[j - from] == s@[j]);
        }
        assert(t.subrange(1, 1 + (end - from)) =~= s@.subrange(from as int, end as int));
    }
    let value = match digits_to_usize(s, from, end) {
        Some(v) => v,
        None => {
            return Err(owned("index is too large"));
        },
    };
    if end >= n || s[end] != ']' {
        proof {
            if end < n {
                assert(t[1 + (end - from)] == s@[end as int]);
            }
        }
        return Err(owned("expected ']' after index"));
    }
    assert(t[1 + (end - from)] == s@[end as int]);
    assert(t.skip(2 + (end - from)) =~= s@.skip(end + 1));
    Ok((Segment::Index(value), end + 1))
}

/// Parses the token that starts at `s[i]`.
fn next_token(s: &Vec<char>, i: usize) -> (r: Result<(Segment, usize), String>)
    requires
        i < s@.len(),
    ensures
        r matches Ok((seg, j)) ==> token_ok(s@, i as int, seg@, j as int),
        r matches Err(m) ==> steps_of(s@.skip(i as int)) == Err::<Seq<Step>, Seq<char>>(m@),
{
    let n = s.len();
    let ghost t = s@.skip(i as int);
    assert(t[0] == s@[i as int]);
    let c = s[i];
    if c == '.' {
        let from = i + 1;
        let end = scan_run(s, from, CharClass::Bareword);
        assert(s@.skip(from as int) =~= t.drop_first());
        if end == from {
            return Err(owned("expected a key after '.'"));
        }
        let key = string_of(s, from, end);
        assert(t.subrange(1, 1 + (end - from)) =~= s@.subrange(from as int, end as int));
        assert(t.skip(1 + (end - from)) =~= s@.skip(end as int));
        Ok((Segment::Key(key), end))
    } else if c == '[' {
        bracket_token(s, i)
    } else if is_bareword(c) {
        let end = scan_run(s, i, CharClass::Bareword);
        proof {
            lemma_class_run_bound(t, CharClass::Bareword);
        }
        let key = string_of(s, i, end);
        assert(t.take(end - i) =~= s@.subrange(i as int, end as int));
        assert(t.skip(end - i) =~= s@.skip(end as int));
        Ok((Segment::Key(key), end))
    } else {
        let mut msg = owned("unexpected character ");
        let shown = debug_char(c);
        msg.append(shown.as_str());
        Err(msg)
    }
}

/// The segments that `s[start..]` denotes, or the message of its first error.
fn parse_steps(s: &Vec<char>, start: usize) -> (r: Result<Vec<Segment>, String>)
    requires
        start <= s@.len(),
    ensures
        r matches Ok(segs) ==> steps_of(s@.skip(start as int)) == Ok::<Seq<Step>, Seq<char>>(
            steps_of_segments(segs@),
        ),
        r matches Err(m) ==> steps_of(s@.skip(start as int)) == Err::<Seq<Step>, Seq<char>>(m@),
{
    let n = s.len();
    let mut segments: Vec<Segment> = Vec::new();
    let mut i = start;
    assert(steps_of_segments(segments@) =~= Seq::<Step>::empty());
    assert(prepend(Seq::<Step>::empty(), steps_of(s@.skip(i as int))) == steps_of(
        s@.skip(i as int),
    )) by {
        if let Ok(x) = steps_of(s@.skip(i as int)) {
            assert(Seq::<Step>::empty() + x =~= x);
        }
    }
    while i < n
        invariant
            start <= i <= n == s@.len(),
            steps_of(s@.skip(start as int)) == prepend(
                steps_of_segments(segments@),
                steps_of(s@.skip(i as int)),
            ),
        decreases n - i,
    {
        let ghost acc = steps_of_segments(segments@);
        match next_token(s, i) {
            Ok((seg, j)) => {
                proof {
                    lemma_prepend_push(acc, seg@, steps_of(s@.skip(j as int)));
                }
                segments.push(seg);
                assert(steps_of_segments(segments@) =~= acc.push(seg@));
                i = j;
            },
            Err(m) => {
                return Err(m);
            },
        }
    }
    proof {
        assert(s@.skip(n as int) =~= Seq::<char>::empty());
        assert(steps_of_segments(segments@) + Seq::<Step>::empty() =~= steps_of_segments(
            segments@,
        ));
    }
    Ok(segments)
}

/// Characters inside a run all belong to the class.
pub proof fn lemma_class_run_prefix(t: Seq<char>, cls: CharClass, k: int)
    requires
        0 <= k < class_run(t, cls),
    ensures
        in_class(t[k], cls),
    decreases t.len(),
{
    lemma_class_run_bound(t, cls);
    assert(t.len() > 0 && in_class(t[0], cls));
    if k > 0 {
        lemma_class_run_prefix(t.drop_first(), cls, k - 1);
        assert(t.drop_first()[k - 1] == t[k]);
    }
}

/// Parse a single dotpath.
fn parse_one(raw: &Vec<char>) -> (r: Result<Path, DotpickError>)
    ensures
        result_path_view(r) == parse_one_spec(raw@),
{
    let s = trim_chars(raw);
    let display = string_of(&s, 0, s.len());
    assert(s@.subrange(0, s@.len() as int) =~= s@);
    if s.len() == 0 {
        let whole = string_of(raw, 0, raw.len());
        assert(raw@.subrange(0, raw@.len() as int) =~= raw@);
        return Err(syntax(whole.as_str(), "empty path"));
    }
    if s.len() == 1 && s[0] == '.' {
        proof {
            reveal_strlit(".");
            assert(s@ =~= "."@);
        }
        let segments: Vec<Segment> = Vec::new();
        assert(steps_of_segments(segments@) =~= Seq::<Step>::empty());
        return Ok(Path { segments, display });
    }
    proof {
        reveal_strlit(".");
        assert(s@ != "."@);
    }
    let start: usize = if s[0] == '.' {
        1
    } else {
        0
    };
    assert(s@.skip(start as int) =~= if s@[0] == '.' {
        s@.drop_first()
    } else {
        s@
    });
    match parse_steps(&s, start) {
        Ok(segments) => Ok(Path { segments, display }),
        Err(m) => Err(syntax(display.as_str(), m.as_str())),
    }
}

pub open spec fn result_path_view(r: Result<Path, DotpickError>) -> Result<PathModel, Failure> {
    match r {
        Ok(p) => Ok(p@),
        Err(e) => Err(e@),
    }
}

pub open spec fn result_paths_view(r: Result<Vec<Path>, DotpickError>) -> Result<
    Seq<PathModel>,
    Failure,
> {
    match r {
        Ok(ps) => Ok(paths_view(ps@)),
        Err(e) => Err(e@),
    }
}

/// Split on top-level commas, treating commas inside `[...]` or quotes as literal.
fn split_top_level(raw: &Vec<char>) -> (r: Vec<Vec<char>>)
    ensures
        r@.map_values(|p: Vec<char>| p@) == split_parts(raw@),
{
    let mut parts: Vec<Vec<char>> = Vec::new();
    let mut cur: Vec<char> = Vec::new();
    let mut opens: usize = 0;
    let mut closes: usize = 0;
    let mut quote: Option<char> = None;
    let mut i: usize = 0;
    while i < raw.len()
        invariant
            i <= raw@.len(),
            opens + closes <= i,
            ({
                let st = split_state(raw@.take(i as int));
                &&& parts@.map_values(|p: Vec<char>| p@) == st.parts
                &&& cur@ == st.cur
                &&& opens - closes == st.depth
                &&& quote == st.quote
            }),
        decreases raw.len() - i,
    {
        let c = raw[i];
        assert(raw@.take(i + 1).drop_last() =~= raw@.take(i as int));
        match quote {
            Some(q) => {
                cur.push(c);
                if c == q {
                    quote = None;
                }
            },
            None => {
                if c == '"' || c == '\'' {
                    quote = Some(c);
                    cur.push(c);
                } else if c == '[' {
                    opens += 1;
                    cur.push(c);
                } else if c == ']' {
                    closes += 1;
                    cur.push(c);
                } else if c == ',' && opens == closes {
                    let piece = trim_chars(&cur);
                    let ghost before = parts@;
                    parts.push(piece);
                    assert(parts@.map_values(|p: Vec<char>| p@) =~= before.map_values(
                        |p: Vec<char>| p@,
                    ).push(piece@));
                    cur = Vec::new();
                } else {
                    cur.push(c);
                }
            },
        }
        i += 1;
    }
    let piece = trim_chars(&cur);
    let ghost before = parts@;
    parts.push(piece);
    assert(raw@.take(raw@.len() as int) =~= raw@);
    assert(parts@.map_values(|p: Vec<char>| p@) =~= before.map_values(|p: Vec<char>| p@).push(
        piece@,
    ));
    parts
}

/// Parse a comma-separated list of dotpaths.
pub fn parse_paths(raw: &str) -> (r: Result<Vec<Path>, DotpickError>)
    ensures
        result_paths_view(r) == parse_paths_spec(raw@),
{
    let chars = to_chars(raw);
    let parts = split_top_level(&chars);
    let ghost pv = parts@.map_values(|p: Vec<char>| p@);
    if parts.len() == 1 && parts[0].len() == 0 {
        assert(pv[0] == parts@[0]@);
        return Err(syntax(raw, "no paths given"));
    }
    assert(pv.len() == parts@.len());
    assert(pv.len() > 0 ==> pv[0] == parts@[0]@);
    assert(!(pv.len() == 1 && pv[0].len() == 0));
    let mut out: Vec<Path> = Vec::new();
    let mut i: usize = 0;
    assert(pv.take(0) =~= Seq::<Seq<char>>::empty());
    assert(paths_view(out@) =~= Seq::<PathModel>::empty());
    while i < parts.len()
        invariant
            i <= parts@.len(),
            pv == parts@.map_values(|p: Vec<char>| p@),
            pv == split_parts(raw@),
            !(pv.len() == 1 && pv[0].len() == 0),
            parse_all(pv.take(i as int)) == Ok::<Seq<PathModel>, Failure>(paths_view(out@)),
        decreases parts.len() - i,
    {
        assert(pv.take(i + 1).drop_last() =~= pv.take(i as int));
        assert(pv.take(i + 1).last() == parts@[i as int]@);
        match parse_one(&parts[i]) {
            Ok(p) => {
                let ghost before = out@;
                out.push(p);
                assert(paths_view(out@) =~= paths_view(before).push(p@));
            },
            Err(e) => {
                proof {
                    assert(parse_all(pv.take(i + 1)) == Err::<Seq<PathModel>, Failure>(e@));
                    lemma_parse_all_error_sticks(pv, i as int + 1);
                }
                return Err(e);
            },
        }
        i += 1;
    }
    assert(pv.take(parts@.len() as int) =~= pv);
    Ok(out)
}

/// Once a prefix of the pieces fails to parse, the whole list fails the same way.
proof fn lemma_parse_all_error_sticks(parts: Seq<Seq<char>>, k: int)
    requires
        0 <= k <= parts.len(),
        parse_all(parts.take(k)) is Err,
    ensures
        parse_all(parts) == parse_all(parts.take(k)),
    decreases parts.len() - k,
{
    if k < parts.len() {
        assert(parts.take(k + 1).drop_last() =~= parts.take(k));
        lemma_parse_all_error_sticks(parts, k + 1);
    } else {
        assert(parts.take(k) =~= parts);
    }
}

} // verus!
