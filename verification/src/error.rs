//! Error type and the stable exit-code contract.
//!
//! Exit codes are part of the public contract (see `dotpick schema`):
//! - `0` success
//! - `1` no match (a selected path is absent, or the projection is empty)
//! - `2` parse or serialize failure (malformed input, or output format cannot
//!   represent the result)
//! - `3` usage error (bad dotpath syntax, conflicting options, raw on non-scalar)

use crate::text::owned;
use vstd::prelude::*;

verus! {

/// All failure modes of a projection run.
#[derive(Debug, PartialEq, Eq)]
pub enum DotpickError {
    /// The input could not be parsed in the (detected or forced) format.
    Parse { format: String, message: String },
    /// A dotpath string is syntactically invalid.
    PathSyntax { path: String, message: String },
    /// A selected path does not exist in the document.
    PathNotFound { path: String, hint: Option<String> },
    /// A path segment was applied to the wrong kind of value
    /// (e.g. indexing an object, or keying into a scalar).
    TypeMismatch { path: String, expected: String, found: String },
    /// Two selected leaves collapse to the same name in `--flat` output.
    NameCollision { name: String },
    /// Raw output was requested but a selected value is not a scalar.
    RawNonScalar { path: String, found: String },
    /// The result cannot be serialized in the requested output format.
    Serialize { format: String, message: String },
}

/// The model of a [`DotpickError`].
pub enum Failure {
    Parse { format: Seq<char>, message: Seq<char> },
    PathSyntax { path: Seq<char>, message: Seq<char> },
    PathNotFound { path: Seq<char>, hint: Option<Seq<char>> },
    TypeMismatch { path: Seq<char>, expected: Seq<char>, found: Seq<char> },
    NameCollision { name: Seq<char> },
    RawNonScalar { path: Seq<char>, found: Seq<char> },
    Serialize { format: Seq<char>, message: Seq<char> },
}

pub open spec fn opt_view(o: Option<String>) -> Option<Seq<char>> {
    match o {
        Some(s) => Some(s@),
        None => None,
    }
}

impl View for DotpickError {
    type V = Failure;

    open spec fn view(&self) -> Failure {
        match self {
            DotpickError::Parse { format, message } => Failure::Parse {
                format: format@,
                message: message@,
            },
            DotpickError::PathSyntax { path, message } => Failure::PathSyntax {
                path: path@,
                message: message@,
            },
            DotpickError::PathNotFound { path, hint } => Failure::PathNotFound {
                path: path@,
                hint: opt_view(*hint),
            },
            DotpickError::TypeMismatch { path, expected, found } => Failure::TypeMismatch {
                path: path@,
                expected: expected@,
                found: found@,
            },
            DotpickError::NameCollision { name } => Failure::NameCollision { name: name@ },
            DotpickError::RawNonScalar { path, found } => Failure::RawNonScalar {
                path: path@,
                found: found@,
            },
            DotpickError::Serialize { format, message } => Failure::Serialize {
                format: format@,
                message: message@,
            },
        }
    }
}

/// The process exit code of each kind of failure.
pub open spec fn exit_code_of(f: Failure) -> int {
    match f {
        Failure::Parse { .. } | Failure::Serialize { .. } => 2,
        Failure::PathNotFound { .. } | Failure::TypeMismatch { .. } => 1,
        Failure::PathSyntax { .. } | Failure::NameCollision { .. } | Failure::RawNonScalar {
            ..
        } => 3,
    }
}

/// The machine-readable kind name of each failure, as error envelopes and
/// the `dotpick schema` contract list it.
pub open spec fn kind_of(f: Failure) -> Seq<char> {
    match f {
        Failure::Parse { .. } => "parse"@,
        Failure::PathSyntax { .. } => "path_syntax"@,
        Failure::PathNotFound { .. } => "path_not_found"@,
        Failure::TypeMismatch { .. } => "type_mismatch"@,
        Failure::NameCollision { .. } => "name_collision"@,
        Failure::RawNonScalar { .. } => "raw_non_scalar"@,
        Failure::Serialize { .. } => "serialize"@,
    }
}

/// What `format!("{:?}", s)` prints for a string: its quoted, escaped form.
pub uninterp spec fn debug_str_text(s: Seq<char>) -> Seq<char>;

/// What `format!("{:?}", c)` prints for a character: its quoted, escaped form.
pub uninterp spec fn debug_char_text(c: char) -> Seq<char>;

/// `<str as Debug>::fmt` through `format!`: the result is named by
/// `debug_str_text`, a function of the text alone; its escaping rules are not
/// restated here.
#[verifier::external_body]
pub(crate) fn debug_str(s: &str) -> (r: String)
    ensures
        r@ == debug_str_text(s@),
{
    format!("{:?}", s)
}

/// `<char as Debug>::fmt` through `format!`: the result is named by
/// `debug_char_text`, a function of the character alone.
#[verifier::external_body]
pub(crate) fn debug_char(c: char) -> (r: String)
    ensures
        r@ == debug_char_text(c),
{
    format!("{:?}", c)
}

/// The suffix that a "nearest existing key" hint adds to a message.
pub open spec fn hint_suffix_text(hint: Option<Seq<char>>) -> Seq<char> {
    match hint {
        Some(h) => "; nearest existing: "@ + h,
        None => Seq::empty(),
    }
}

/// The human-readable message of each failure.
pub open spec fn message_of(f: Failure) -> Seq<char> {
    match f {
        Failure::Parse { format, message } => "could not parse input as "@ + format + ": "@
            + message,
        Failure::PathSyntax { path, message } => "invalid dotpath "@ + debug_str_text(path)
            + ": "@ + message,
        Failure::PathNotFound { path, hint } => "path "@ + path + " not found"@
            + hint_suffix_text(hint),
        Failure::TypeMismatch { path, expected, found } => "path "@ + path + ": expected "@
            + expected + " but found "@ + found,
        Failure::NameCollision { name } => "flat output has a name collision on "@
            + debug_str_text(name)
            + "; use the default structured output or rename with a quoted path"@,
        Failure::RawNonScalar { path, found } => "raw output requires scalar values, but "@ + path
            + " is "@ + found + "; use --to json"@,
        Failure::Serialize { format, message } => "cannot serialize result as "@ + format
            + ": "@ + message,
    }
}

fn hint_suffix(hint: &Option<String>) -> (r: String)
    ensures
        r@ == hint_suffix_text(opt_view(*hint)),
{
    match hint {
        Some(h) => {
            let mut s = owned("; nearest existing: ");
            s.append(h.as_str());
            s
        },
        None => String::new(),
    }
}

/// The concatenation of the given pieces.
fn join(pieces: &[&str]) -> (r: String)
    ensures
        r@ == pieces@.fold_left(Seq::<char>::empty(), |acc: Seq<char>, p: &str| acc + p@),
{
    let mut s = String::new();
    let mut i: usize = 0;
    while i < pieces.len()
        invariant
            i <= pieces@.len(),
            s@ == pieces@.take(i as int).fold_left(
                Seq::<char>::empty(),
                |acc: Seq<char>, p: &str| acc + p@,
            ),
        decreases pieces.len() - i,
    {
        proof {
            assert(pieces@.take(i + 1).drop_last() =~= pieces@.take(i as int));
        }
        s.append(pieces[i]);
        i += 1;
    }
    assert(pieces@.take(pieces@.len() as int) =~= pieces@);
    s
}

impl DotpickError {
    /// The process exit code associated with this error.
    pub fn exit_code(&self) -> (r: i32)
        ensures
            r == exit_code_of(self@),
    {
        match self {
            DotpickError::Parse { .. } | DotpickError::Serialize { .. } => 2,
            DotpickError::PathNotFound { .. } | DotpickError::TypeMismatch { .. } => 1,
            DotpickError::PathSyntax { .. }
            | DotpickError::NameCollision { .. }
            | DotpickError::RawNonScalar { .. } => 3,
        }
    }

    /// The machine-readable kind name of this error.
    pub fn kind(&self) -> (r: &'static str)
        ensures
            r@ == kind_of(self@),
    {
        match self {
            DotpickError::Parse { .. } => "parse",
            DotpickError::PathSyntax { .. } => "path_syntax",
            DotpickError::PathNotFound { .. } => "path_not_found",
            DotpickError::TypeMismatch { .. } => "type_mismatch",
            DotpickError::NameCollision { .. } => "name_collision",
            DotpickError::RawNonScalar { .. } => "raw_non_scalar",
            DotpickError::Serialize { .. } => "serialize",
        }
    }

    /// The human-readable message of this error.
    pub fn message(&self) -> (r: String)
        ensures
            r@ == message_of(self@),
    {
        let r = match self {
            DotpickError::Parse { format, message } => join(
                &["could not parse input as ", format.as_str(), ": ", message.as_str()],
            ),
            DotpickError::PathSyntax { path, message } => {
                let quoted = debug_str(path.as_str());
                join(&["invalid dotpath ", quoted.as_str(), ": ", message.as_str()])
            },
            DotpickError::PathNotFound { path, hint } => {
                let suffix = hint_suffix(hint);
                join(&["path ", path.as_str(), " not found", suffix.as_str()])
            },
            DotpickError::TypeMismatch { path, expected, found } => join(
                &[
                    "path ",
                    path.as_str(),
                    ": expected ",
                    expected.as_str(),
                    " but found ",
                    found.as_str(),
                ],
            ),
            DotpickError::NameCollision { name } => {
                let quoted = debug_str(name.as_str());
                join(
                    &[
                        "flat output has a name collision on ",
                        quoted.as_str(),
                        "; use the default structured output or rename with a quoted path",
                    ],
                )
            },
            DotpickError::RawNonScalar { path, found } => join(
                &[
                    "raw output requires scalar values, but ",
                    path.as_str(),
                    " is ",
                    found.as_str(),
                    "; use --to json",
                ],
            ),
            DotpickError::Serialize { format, message } => join(
                &["cannot serialize result as ", format.as_str(), ": ", message.as_str()],
            ),
        };
        proof {
            reveal_with_fuel(Seq::fold_left, 8);
        }
        r
    }
}

} // verus!
