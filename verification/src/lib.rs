//! dotpick: token-minimal field projection over JSON, YAML, TOML and NDJSON.
//!
//! Select fields by dotpath and emit the smallest valid slice. The whole
//! pipeline is reachable through [`run`], which the CLI and the tests both use.

pub mod containment;
pub mod distance;
pub mod error;
pub mod input;
pub mod laws;

pub mod order;
pub mod output;
pub mod path;
pub mod project;
pub mod records;
pub mod schema;
pub mod steps;
pub mod text;
pub mod trimming;
pub mod value;

pub use error::DotpickError;

use crate::error::Failure;
use crate::path::{parse_paths, parse_paths_spec, paths_view, PathModel};
use crate::project::{flat, flat_spec, structured, structured_spec, value_view};
use crate::value::{models, Json, Node};
use vstd::prelude::*;

verus! {

/// Input formats dotpick can read.
#[derive(Debug, Clone, Copy, PartialEq, Eq)]
pub enum InputFormat {
    Json,
    Yaml,
    Toml,
    Ndjson,
}

/// Output formats dotpick can write.
#[derive(Debug, Clone, Copy, PartialEq, Eq)]
pub enum OutputFormat {
    Json,
    Yaml,
    Toml,
    Ndjson,
    /// Bare scalar values, one per line.
    Raw,
}

/// A complete projection request.
#[derive(Debug, Clone)]
pub struct Request {
    /// The raw document text.
    pub input: String,
    /// Forced input format, or `None` to auto-detect.
    pub from: Option<InputFormat>,
    /// Comma-separated dotpaths.
    pub paths: String,
    /// Key each leaf by its final name instead of preserving structure.
    pub flat: bool,
    /// Forced output format, or `None` for the default (NDJSON in, JSON otherwise).
    pub to: Option<OutputFormat>,
    /// Skip absent paths instead of erroring.
    pub allow_missing: bool,
    /// Pretty-print JSON output.
    pub pretty: bool,
}

/// The output format used when none is forced: NDJSON for NDJSON input,
/// JSON otherwise.
pub open spec fn default_output_spec(from: Option<InputFormat>) -> OutputFormat {
    match from {
        Some(InputFormat::Ndjson) => OutputFormat::Ndjson,
        _ => OutputFormat::Json,
    }
}

/// Every record projected, structured or flat, in record order.
pub open spec fn project_records(
    records: Seq<Json>,
    paths: Seq<PathModel>,
    flat: bool,
    allow: bool,
) -> Result<Seq<Json>, Failure>
    decreases records.len(),
{
    if records.len() == 0 {
        Ok(Seq::empty())
    } else {
        match project_records(records.drop_last(), paths, flat, allow) {
            Err(e) => Err(e),
            Ok(docs) => match if flat {
                flat_spec(records.last(), paths, allow)
            } else {
                structured_spec(records.last(), paths, allow)
            } {
                Err(e) => Err(e),
                Ok(d) => Ok(docs.push(d)),
            },
        }
    }
}

/// The output of a projection request, or its failure.
pub open spec fn run_spec(req: Request) -> Result<Seq<char>, Failure> {
    match parse_paths_spec(req.paths@) {
        Err(e) => Err(e),
        Ok(paths) => match input::parse_spec(req.input@, req.from) {
            Err(e) => Err(e),
            Ok(records) => {
                let format = match req.to {
                    Some(f) => f,
                    None => default_output_spec(req.from),
                };
                match format {
                    OutputFormat::Raw => output::raw_output(records, paths, req.allow_missing),
                    OutputFormat::Ndjson => output::ndjson_output(records, paths, req.allow_missing),
                    _ => match project_records(records, paths, req.flat, req.allow_missing) {
                        Err(e) => Err(e),
                        Ok(docs) => output::render_spec(docs, format, req.pretty),
                    },
                }
            },
        },
    }
}

fn default_output(from: Option<InputFormat>) -> (r: OutputFormat)
    ensures
        r == default_output_spec(from),
{
    match from {
        Some(InputFormat::Ndjson) => OutputFormat::Ndjson,
        _ => OutputFormat::Json,
    }
}

proof fn lemma_project_records_error(
    records: Seq<Json>,
    paths: Seq<PathModel>,
    flat: bool,
    allow: bool,
    k: int,
)
    requires
        0 <= k <= records.len(),
        project_records(records.take(k), paths, flat, allow) is Err,
    ensures
        project_records(records, paths, flat, allow) == project_records(
            records.take(k),
            paths,
            flat,
            allow,
        ),
    decreases records.len() - k,
{
    if k < records.len() {
        assert(records.take(k + 1).drop_last() =~= records.take(k));
        lemma_project_records_error(records, paths, flat, allow, k + 1);
    } else {
        assert(records.take(k) =~= records);
    }
}

/// Run a projection and return the rendered output (without a trailing newline).
pub fn run(req: &Request) -> (r: Result<String, DotpickError>)
    ensures
        output::text_view(r) == run_spec(*req),
        r matches Ok(s) ==> output::no_trailing_newline(s@),
{
    let paths = match parse_paths(req.paths.as_str()) {
        Ok(p) => p,
        Err(e) => {
            return Err(e);
        },
    };
    let records = match input::parse(req.input.as_str(), req.from) {
        Ok(r) => r,
        Err(e) => {
            return Err(e);
        },
    };
    let format = match req.to {
        Some(f) => f,
        None => default_output(req.from),
    };
    match format {
        OutputFormat::Raw => {
            return output::render_raw(&records, paths.as_slice(), req.allow_missing);
        },
        OutputFormat::Ndjson => {
            return output::render_ndjson(&records, paths.as_slice(), req.allow_missing);
        },
        _ => {},
    }
    let ghost rs = models(records@);
    let ghost pv = paths_view(paths@);
    let mut docs: Vec<Node> = Vec::new();
    let mut i: usize = 0;
    assert(rs.take(0) =~= Seq::<Json>::empty());
    assert(models(docs@) =~= Seq::<Json>::empty());
    while i < records.len()
        invariant
            i <= records@.len(),
            rs == models(records@),
            pv == paths_view(paths@),
            parse_paths_spec(req.paths@) == Ok::<Seq<PathModel>, Failure>(pv),
            input::parse_spec(req.input@, req.from) == Ok::<Seq<Json>, Failure>(rs),
            format == match req.to {
                Some(f) => f,
                None => default_output_spec(req.from),
            },
            !(format is Raw) && !(format is Ndjson),
            project_records(rs.take(i as int), pv, req.flat, req.allow_missing) == Ok::<
                Seq<Json>,
                Failure,
            >(models(docs@)),
        decreases records.len() - i,
    {
        assert(rs.take(i + 1).drop_last() =~= rs.take(i as int));
        assert(rs.take(i + 1).last() == records@[i as int]@);
        let doc = if req.flat {
            flat(&records[i], paths.as_slice(), req.allow_missing)
        } else {
            structured(&records[i], paths.as_slice(), req.allow_missing)
        };
        match doc {
            Ok(d) => {
                let ghost before = models(docs@);
                docs.push(d);
                assert(models(docs@) =~= before.push(d@));
            },
            Err(e) => {
                proof {
                    lemma_project_records_error(rs, pv, req.flat, req.allow_missing, i + 1);
                }
                return Err(e);
            },
        }
        i += 1;
    }
    assert(rs.take(records@.len() as int) =~= rs);
    output::render(&docs, format, req.pretty)
}

} // verus!
