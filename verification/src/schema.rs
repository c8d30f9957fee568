//! The clispec v0.2 contract emitted by `dotpick schema`.
//!
//! Conforms to <https://clispec.dev/schema/v0.2.json>.

use crate::error::{exit_code_of, kind_of, Failure};
use crate::output::json_pretty_text;
use crate::text::{decimal, owned, push_decimal};
use crate::value::{entry_models, keys_of, model, models, Json, Node};
use vstd::prelude::*;

verus! {

/// The version of The CLI Spec this document conforms to.
pub const CLISPEC_VERSION: &'static str = "0.2";

/// The tool's version, as the contract reports it.
pub const TOOL_VERSION: &'static str = "0.1.0";

/// The tool's one-line description, as the contract reports it.
pub const TOOL_DESCRIPTION: &'static str = "Token-minimal field projection over JSON, YAML, TOML and NDJSON.";

/// One row of the contract's error table.
pub open spec fn error_row(kind: Seq<char>, code: nat, description: Seq<char>) -> Json {
    Json::Object(
        seq![
            ("description"@, Json::Str(description)),
            ("exit_code"@, Json::Number(decimal(code))),
            ("kind"@, Json::Str(kind)),
            ("retryable"@, Json::Bool(false)),
        ],
    )
}

/// The contract's error table: every error kind with its exit code.
pub open spec fn error_table() -> Seq<Json> {
    seq![
        error_row("usage"@, 3, "Invalid command-line arguments."@),
        error_row("path_syntax"@, 3, "A dotpath is syntactically invalid."@),
        error_row("name_collision"@, 3, "Two leaves collapse to the same name under --flat."@),
        error_row(
            "raw_non_scalar"@,
            3,
            "--output raw was used but a selected value is not a scalar."@,
        ),
        error_row(
            "path_not_found"@,
            1,
            "A selected path is absent. The message includes a nearest-key hint."@,
        ),
        error_row("type_mismatch"@, 1, "A path segment was applied to the wrong kind of value."@),
        error_row("parse"@, 2, "Input could not be parsed in the detected or forced format."@),
        error_row(
            "serialize"@,
            2,
            "The result cannot be represented in the requested output format (e.g. a non-table TOML root)."@,
        ),
        error_row("io"@, 2, "The input file could not be read."@),
    ]
}

/// The top-level keys of the contract, in ascending order.
pub open spec fn top_level_keys() -> Seq<Seq<char>> {
    seq![
        "clispec"@,
        "commands"@,
        "description"@,
        "errors"@,
        "global_args"@,
        "name"@,
        "version"@,
    ]
}

/// Whether an object has the entry `(k, v)`.
pub open spec fn has_entry(es: Seq<(Seq<char>, Json)>, k: Seq<char>, v: Json) -> bool {
    exists|i: int| 0 <= i < es.len() && #[trigger] es[i] == (k, v)
}

/// What the contract document promises: its top-level layout, its identity,
/// every command marked read-only, and the error table.
pub open spec fn contract_shape(j: Json) -> bool {
    &&& j is Object
    &&& keys_of(j->Object_0) == top_level_keys()
    &&& j->Object_0[0].1 == Json::Str(CLISPEC_VERSION@)
    &&& j->Object_0[5].1 == Json::Str("dotpick"@)
    &&& j->Object_0[6].1 == Json::Str(TOOL_VERSION@)
    &&& j->Object_0[2].1 == Json::Str(TOOL_DESCRIPTION@)
    &&& j->Object_0[4].1 is Array && j->Object_0[4].1->Array_0.len() > 0
    &&& j->Object_0[1].1 is Array && j->Object_0[1].1->Array_0.len() > 0
    &&& forall|i: int|
        0 <= i < j->Object_0[1].1->Array_0.len() ==> {
            let c = #[trigger] j->Object_0[1].1->Array_0[i];
            c is Object && has_entry(c->Object_0, "mutating"@, Json::Bool(false))
        }
    &&& j->Object_0[3].1 == Json::Array(error_table())
}

/// Each failure of the library appears in the contract's error table with
/// the exit code that [`crate::DotpickError::exit_code`] gives it.
pub proof fn lemma_error_table_matches_exit_codes(f: Failure)
    ensures
        exists|i: int|
            0 <= i < error_table().len() && #[trigger] error_table()[i] == error_row(
                kind_of(f),
                exit_code_of(f) as nat,
                error_table()[i]->Object_0[0].1->Str_0,
            ),
{
    let t = error_table();
    match f {
        Failure::PathSyntax { .. } => assert(t[1] == error_row(kind_of(f), 3, t[1]->Object_0[0].1->Str_0)),
        Failure::NameCollision { .. } => assert(t[2] == error_row(kind_of(f), 3, t[2]->Object_0[0].1->Str_0)),
        Failure::RawNonScalar { .. } => assert(t[3] == error_row(kind_of(f), 3, t[3]->Object_0[0].1->Str_0)),
        Failure::PathNotFound { .. } => assert(t[4] == error_row(kind_of(f), 1, t[4]->Object_0[0].1->Str_0)),
        Failure::TypeMismatch { .. } => assert(t[5] == error_row(kind_of(f), 1, t[5]->Object_0[0].1->Str_0)),
        Failure::Parse { .. } => assert(t[6] == error_row(kind_of(f), 2, t[6]->Object_0[0].1->Str_0)),
        Failure::Serialize { .. } => assert(t[7] == error_row(kind_of(f), 2, t[7]->Object_0[0].1->Str_0)),
    }
}

/// A list of strings as a document.
pub open spec fn texts_value(items: Seq<Seq<char>>) -> Json {
    Json::Array(items.map_values(|s: Seq<char>| Json::Str(s)))
}

/// The entries that describe a named, typed item.
pub open spec fn arg_entries(name: Seq<char>, kind: Seq<char>, description: Seq<char>) -> Seq<
    (Seq<char>, Json),
> {
    seq![("description"@, Json::Str(description)), ("name"@, Json::Str(name)), ("type"@, Json::Str(kind))]
}

/// A boolean flag, off by default.
pub open spec fn flag_row(name: Seq<char>, description: Seq<char>) -> Json {
    Json::Object(
        seq![
            ("default"@, Json::Bool(false)),
            ("description"@, Json::Str(description)),
            ("name"@, Json::Str(name)),
            ("type"@, Json::Str("boolean"@)),
        ],
    )
}

/// A command's argument, with whether it is required.
pub open spec fn arg_spec_row(
    name: Seq<char>,
    kind: Seq<char>,
    required: bool,
    description: Seq<char>,
) -> Json {
    Json::Object(
        seq![
            ("description"@, Json::Str(description)),
            ("name"@, Json::Str(name)),
            ("required"@, Json::Bool(required)),
            ("type"@, Json::Str(kind)),
        ],
    )
}

/// The flags of the projection command.
pub open spec fn global_args_table() -> Seq<Json> {
    seq![
        Json::Object(
            seq![
                ("default"@, Json::Str("auto"@)),
                (
                    "description"@,
                    Json::Str(
                        "Output format. auto = JSON, or NDJSON when the input is NDJSON. Alias: --to / -o."@,
                    ),
                ),
                ("enum"@, texts_value(seq!["auto"@, "json"@, "yaml"@, "toml"@, "ndjson"@, "raw"@])),
                ("name"@, Json::Str("--output"@)),
                ("type"@, Json::Str("string"@)),
            ],
        ),
        Json::Object(
            seq![
                (
                    "description"@,
                    Json::Str(
                        "Force the input format (default: auto-detect, or from the file extension)."@,
                    ),
                ),
                ("enum"@, texts_value(seq!["json"@, "yaml"@, "toml"@, "ndjson"@])),
                ("name"@, Json::Str("--from"@)),
                ("type"@, Json::Str("string"@)),
            ],
        ),
        flag_row(
            "--flat"@,
            "Key each selected leaf by its final name instead of preserving structure."@,
        ),
        flag_row("--allow-missing"@, "Skip absent paths instead of erroring."@),
        flag_row("--pretty"@, "Pretty-print JSON output."@),
    ]
}

/// The fields of the `schema` command's output.
pub open spec fn output_fields_table() -> Seq<Json> {
    seq![
        Json::Object(
            arg_entries("clispec"@, "string"@, "The CLI Spec version this document conforms to."@),
        ),
        Json::Object(arg_entries("name"@, "string"@, "The tool's invocation name."@)),
        Json::Object(arg_entries("version"@, "string"@, "The tool's version."@)),
        Json::Object(
            arg_entries("global_args"@, "array"@, "Flags accepted by the projection command."@),
        ),
        Json::Object(arg_entries("commands"@, "array"@, "The commands the tool exposes."@)),
        Json::Object(
            arg_entries("errors"@, "array"@, "The finite set of error kinds with exit codes."@),
        ),
    ]
}

pub open spec fn schema_command_value() -> Json {
    Json::Object(
        seq![
            ("description"@, Json::Str("Print this clispec contract as JSON."@)),
            ("mutating"@, Json::Bool(false)),
            ("name"@, Json::Str("schema"@)),
            ("output_fields"@, Json::Array(output_fields_table())),
            ("stability"@, Json::Str("stable"@)),
        ],
    )
}

pub open spec fn project_command_value() -> Json {
    Json::Object(
        seq![
            (
                "args"@,
                Json::Array(
                    seq![
                        arg_spec_row(
                            "paths"@,
                            "string"@,
                            true,
                            "Comma-separated dotpaths, e.g. '.metadata.name,.spec.replicas'. Grammar: .key, [\"quoted.key\"], [0], [], . (root)."@,
                        ),
                        arg_spec_row("file"@, "path"@, false, "Input file; omit to read stdin."@),
                    ],
                ),
            ),
            (
                "description"@,
                Json::Str(
                    "Project the comma-separated dotpaths from a file or stdin. Also the default command, invoked as `dotpick <paths> [file]`. Output mirrors the selected paths, so it has no fixed shape; object keys are emitted in sorted order."@,
                ),
            ),
            (
                "example"@,
                Json::Object(
                    seq![
                        ("args"@, texts_value(seq!["."@])),
                        ("stdin"@, Json::Str("{\"x\":1}"@)),
                    ],
                ),
            ),
            ("mutating"@, Json::Bool(false)),
            ("name"@, Json::Str("project"@)),
            ("stability"@, Json::Str("stable"@)),
        ],
    )
}

pub open spec fn completions_command_value() -> Json {
    Json::Object(
        seq![
            (
                "args"@,
                Json::Array(
                    seq![
                        Json::Object(
                            seq![
                                ("description"@, Json::Str("Target shell."@)),
                                (
                                    "enum"@,
                                    texts_value(
                                        seq!["bash"@, "zsh"@, "fish"@, "powershell"@, "elvish"@],
                                    ),
                                ),
                                ("name"@, Json::Str("shell"@)),
                                ("required"@, Json::Bool(true)),
                                ("type"@, Json::Str("string"@)),
                            ],
                        ),
                    ],
                ),
            ),
            ("description"@, Json::Str("Generate a shell completion script."@)),
            ("mutating"@, Json::Bool(false)),
            ("name"@, Json::Str("completions"@)),
            ("stability"@, Json::Str("stable"@)),
        ],
    )
}

/// The commands the tool exposes.
pub open spec fn commands_table() -> Seq<Json> {
    seq![schema_command_value(), project_command_value(), completions_command_value()]
}

/// The whole contract document; every object lists its keys in ascending
/// order.
pub open spec fn contract_value() -> Json {
    Json::Object(
        seq![
            ("clispec"@, Json::Str(CLISPEC_VERSION@)),
            ("commands"@, Json::Array(commands_table())),
            ("description"@, Json::Str(TOOL_DESCRIPTION@)),
            ("errors"@, Json::Array(error_table())),
            ("global_args"@, Json::Array(global_args_table())),
            ("name"@, Json::Str("dotpick"@)),
            ("version"@, Json::Str(TOOL_VERSION@)),
        ],
    )
}

/// The contract has the clispec top-level layout, names this tool, marks
/// every command read-only, and lists the error table.
pub proof fn lemma_contract_shape()
    ensures
        contract_shape(contract_value()),
{
    let j = contract_value();
    assert(keys_of(j->Object_0) =~= top_level_keys());
    let cs = commands_table();
    assert(cs[0]->Object_0[1] == ("mutating"@, Json::Bool(false)));
    assert(cs[1]->Object_0[3] == ("mutating"@, Json::Bool(false)));
    assert(cs[2]->Object_0[2] == ("mutating"@, Json::Bool(false)));
    assert forall|i: int| 0 <= i < cs.len() implies {
        let c = #[trigger] cs[i];
        c is Object && has_entry(c->Object_0, "mutating"@, Json::Bool(false))
    } by {
        if i == 0 {
            assert(cs[i]->Object_0[1] == ("mutating"@, Json::Bool(false)));
        } else if i == 1 {
            assert(cs[i]->Object_0[3] == ("mutating"@, Json::Bool(false)));
        } else {
            assert(cs[i]->Object_0[2] == ("mutating"@, Json::Bool(false)));
        }
    }
}

// ---------------------------------------------------------------------------
// Builders
// ---------------------------------------------------------------------------

fn text(s: &str) -> (r: Node)
    ensures
        r@ == Json::Str(s@),
{
    Node::String(owned(s))
}

fn number(n: usize) -> (r: Node)
    ensures
        r@ == Json::Number(decimal(n as nat)),
{
    let mut s = String::new();
    push_decimal(&mut s, n);
    assert(s@ =~= decimal(n as nat));
    Node::Number(s)
}

fn field(obj: &mut Vec<(String, Node)>, key: &str, v: Node)
    ensures
        entry_models(final(obj)@) == entry_models(old(obj)@).push((key@, v@)),
{
    let ghost before = entry_models(obj@);
    obj.push((owned(key), v));
    assert(entry_models(obj@) =~= before.push((key@, v@)));
}

fn item(list: &mut Vec<Node>, v: Node)
    ensures
        models(final(list)@) == models(old(list)@).push(v@),
{
    let ghost before = models(list@);
    list.push(v);
    assert(models(list@) =~= before.push(v@));
}

fn texts(items: &[&str]) -> (r: Node)
    ensures
        r@ == texts_value(items@.map_values(|s: &str| s@)),
{
    let ghost want = items@.map_values(|s: &str| s@);
    let mut list: Vec<Node> = Vec::new();
    let mut i: usize = 0;
    while i < items.len()
        invariant
            i <= items@.len(),
            want == items@.map_values(|s: &str| s@),
            models(list@) == want.take(i as int).map_values(|s: Seq<char>| Json::Str(s)),
        decreases items.len() - i,
    {
        let ghost before = models(list@);
        item(&mut list, text(items[i]));
        assert(want.take(i + 1).map_values(|s: Seq<char>| Json::Str(s)) =~= before.push(
            Json::Str(want[i as int]),
        ));
        i += 1;
    }
    assert(want.take(items@.len() as int) =~= want);
    Node::Array(list)
}

fn error_entry(list: &mut Vec<Node>, kind: &str, code: usize, description: &str)
    ensures
        models(final(list)@) == models(old(list)@).push(
            error_row(kind@, code as nat, description@),
        ),
{
    let mut o: Vec<(String, Node)> = Vec::new();
    field(&mut o, "description", text(description));
    field(&mut o, "exit_code", number(code));
    field(&mut o, "kind", text(kind));
    field(&mut o, "retryable", Node::Bool(false));
    assert(entry_models(o@) =~= error_row(kind@, code as nat, description@)->Object_0);
    item(list, Node::Object(o));
}

fn flag(list: &mut Vec<Node>, name: &str, description: &str)
    ensures
        models(final(list)@) == models(old(list)@).push(flag_row(name@, description@)),
{
    let mut o: Vec<(String, Node)> = Vec::new();
    field(&mut o, "default", Node::Bool(false));
    field(&mut o, "description", text(description));
    field(&mut o, "name", text(name));
    field(&mut o, "type", text("boolean"));
    assert(entry_models(o@) =~= flag_row(name@, description@)->Object_0);
    item(list, Node::Object(o));
}

fn global_args() -> (r: Node)
    ensures
        r@ == Json::Array(global_args_table()),
{
    let mut list: Vec<Node> = Vec::new();
    assert(models(list@) =~= Seq::<Json>::empty());
    let mut output: Vec<(String, Node)> = Vec::new();
    field(&mut output, "default", text("auto"));
    field(
        &mut output,
        "description",
        text("Output format. auto = JSON, or NDJSON when the input is NDJSON. Alias: --to / -o."),
    );
    let names: [&str; 6] = ["auto", "json", "yaml", "toml", "ndjson", "raw"];
    assert(names@.map_values(|s: &str| s@) =~= seq!["auto"@, "json"@, "yaml"@, "toml"@, "ndjson"@, "raw"@]);
    field(&mut output, "enum", texts(&names));
    field(&mut output, "name", text("--output"));
    field(&mut output, "type", text("string"));
    assert(entry_models(output@) =~= global_args_table()[0]->Object_0);
    item(&mut list, Node::Object(output));
    let mut from: Vec<(String, Node)> = Vec::new();
    field(
        &mut from,
        "description",
        text("Force the input format (default: auto-detect, or from the file extension)."),
    );
    let names: [&str; 4] = ["json", "yaml", "toml", "ndjson"];
    assert(names@.map_values(|s: &str| s@) =~= seq!["json"@, "yaml"@, "toml"@, "ndjson"@]);
    field(&mut from, "enum", texts(&names));
    field(&mut from, "name", text("--from"));
    field(&mut from, "type", text("string"));
    assert(entry_models(from@) =~= global_args_table()[1]->Object_0);
    item(&mut list, Node::Object(from));
    flag(&mut list, "--flat", "Key each selected leaf by its final name instead of preserving structure.");
    flag(&mut list, "--allow-missing", "Skip absent paths instead of erroring.");
    flag(&mut list, "--pretty", "Pretty-print JSON output.");
    assert(models(list@) =~= global_args_table());
    Node::Array(list)
}

fn output_field(list: &mut Vec<Node>, name: &str, kind: &str, description: &str)
    ensures
        models(final(list)@) == models(old(list)@).push(
            Json::Object(arg_entries(name@, kind@, description@)),
        ),
{
    let mut o: Vec<(String, Node)> = Vec::new();
    field(&mut o, "description", text(description));
    field(&mut o, "name", text(name));
    field(&mut o, "type", text(kind));
    assert(entry_models(o@) =~= arg_entries(name@, kind@, description@));
    item(list, Node::Object(o));
}

fn arg_spec(list: &mut Vec<Node>, name: &str, kind: &str, required: bool, description: &str)
    ensures
        models(final(list)@) == models(old(list)@).push(
            arg_spec_row(name@, kind@, required, description@),
        ),
{
    let mut o: Vec<(String, Node)> = Vec::new();
    field(&mut o, "description", text(description));
    field(&mut o, "name", text(name));
    field(&mut o, "required", Node::Bool(required));
    field(&mut o, "type", text(kind));
    assert(entry_models(o@) =~= arg_spec_row(name@, kind@, required, description@)->Object_0);
    item(list, Node::Object(o));
}

fn schema_command() -> (r: Node)
    ensures
        r@ == schema_command_value(),
{
    let mut fields: Vec<Node> = Vec::new();
    assert(models(fields@) =~= Seq::<Json>::empty());
    output_field(&mut fields, "clispec", "string", "The CLI Spec version this document conforms to.");
    output_field(&mut fields, "name", "string", "The tool's invocation name.");
    output_field(&mut fields, "version", "string", "The tool's version.");
    output_field(&mut fields, "global_args", "array", "Flags accepted by the projection command.");
    output_field(&mut fields, "commands", "array", "The commands the tool exposes.");
    output_field(&mut fields, "errors", "array", "The finite set of error kinds with exit codes.");
    assert(models(fields@) =~= output_fields_table());
    let mut o: Vec<(String, Node)> = Vec::new();
    field(&mut o, "description", text("Print this clispec contract as JSON."));
    field(&mut o, "mutating", Node::Bool(false));
    field(&mut o, "name", text("schema"));
    field(&mut o, "output_fields", Node::Array(fields));
    field(&mut o, "stability", text("stable"));
    assert(entry_models(o@) =~= schema_command_value()->Object_0);
    Node::Object(o)
}

fn project_command() -> (r: Node)
    ensures
        r@ == project_command_value(),
{
    let mut args: Vec<Node> = Vec::new();
    assert(models(args@) =~= Seq::<Json>::empty());
    arg_spec(
        &mut args,
        "paths",
        "string",
        true,
        "Comma-separated dotpaths, e.g. '.metadata.name,.spec.replicas'. Grammar: .key, [\"quoted.key\"], [0], [], . (root).",
    );
    arg_spec(&mut args, "file", "path", false, "Input file; omit to read stdin.");
    assert(models(args@) =~= project_command_value()->Object_0[0].1->Array_0);
    let mut example: Vec<(String, Node)> = Vec::new();
    let names: [&str; 1] = ["."];
    assert(names@.map_values(|s: &str| s@) =~= seq!["."@]);
    field(&mut example, "args", texts(&names));
    field(&mut example, "stdin", text("{\"x\":1}"));
    assert(entry_models(example@) =~= project_command_value()->Object_0[2].1->Object_0);
    let mut o: Vec<(String, Node)> = Vec::new();
    field(&mut o, "args", Node::Array(args));
    field(
        &mut o,
        "description",
        text(
            "Project the comma-separated dotpaths from a file or stdin. Also the default command, invoked as `dotpick <paths> [file]`. Output mirrors the selected paths, so it has no fixed shape; object keys are emitted in sorted order.",
        ),
    );
    field(&mut o, "example", Node::Object(example));
    field(&mut o, "mutating", Node::Bool(false));
    field(&mut o, "name", text("project"));
    field(&mut o, "stability", text("stable"));
    assert(entry_models(o@) =~= project_command_value()->Object_0);
    Node::Object(o)
}

fn completions_command() -> (r: Node)
    ensures
        r@ == completions_command_value(),
{
    let mut shell: Vec<(String, Node)> = Vec::new();
    field(&mut shell, "description", text("Target shell."));
    let names: [&str; 5] = ["bash", "zsh", "fish", "powershell", "elvish"];
    assert(names@.map_values(|s: &str| s@) =~= seq!["bash"@, "zsh"@, "fish"@, "powershell"@, "elvish"@]);
    field(&mut shell, "enum", texts(&names));
    field(&mut shell, "name", text("shell"));
    field(&mut shell, "required", Node::Bool(true));
    field(&mut shell, "type", text("string"));
    let ghost sv = completions_command_value()->Object_0[0].1->Array_0;
    assert(entry_models(shell@) =~= sv[0]->Object_0);
    let mut cargs: Vec<Node> = Vec::new();
    assert(models(cargs@) =~= Seq::<Json>::empty());
    item(&mut cargs, Node::Object(shell));
    assert(models(cargs@) =~= sv);
    let mut o: Vec<(String, Node)> = Vec::new();
    field(&mut o, "args", Node::Array(cargs));
    field(&mut o, "description", text("Generate a shell completion script."));
    field(&mut o, "mutating", Node::Bool(false));
    field(&mut o, "name", text("completions"));
    field(&mut o, "stability", text("stable"));
    assert(entry_models(o@) =~= completions_command_value()->Object_0);
    Node::Object(o)
}

fn commands() -> (r: Node)
    ensures
        r@ == Json::Array(commands_table()),
{
    let mut list: Vec<Node> = Vec::new();
    assert(models(list@) =~= Seq::<Json>::empty());
    item(&mut list, schema_command());
    item(&mut list, project_command());
    item(&mut list, completions_command());
    assert(models(list@) =~= commands_table());
    Node::Array(list)
}

fn errors() -> (r: Node)
    ensures
        r@ == Json::Array(error_table()),
{
    let mut list: Vec<Node> = Vec::new();
    assert(models(list@) =~= Seq::<Json>::empty());
    error_entry(&mut list, "usage", 3, "Invalid command-line arguments.");
    error_entry(&mut list, "path_syntax", 3, "A dotpath is syntactically invalid.");
    error_entry(&mut list, "name_collision", 3, "Two leaves collapse to the same name under --flat.");
    error_entry(
        &mut list,
        "raw_non_scalar",
        3,
        "--output raw was used but a selected value is not a scalar.",
    );
    error_entry(
        &mut list,
        "path_not_found",
        1,
        "A selected path is absent. The message includes a nearest-key hint.",
    );
    error_entry(&mut list, "type_mismatch", 1, "A path segment was applied to the wrong kind of value.");
    error_entry(&mut list, "parse", 2, "Input could not be parsed in the detected or forced format.");
    error_entry(
        &mut list,
        "serialize",
        2,
        "The result cannot be represented in the requested output format (e.g. a non-table TOML root).",
    );
    error_entry(&mut list, "io", 2, "The input file could not be read.");
    assert(models(list@) =~= error_table());
    Node::Array(list)
}

/// Build the clispec contract as a document.
pub fn contract() -> (r: Node)
    ensures
        r@ == contract_value(),
{
    let mut o: Vec<(String, Node)> = Vec::new();
    assert(entry_models(o@) =~= Seq::<(Seq<char>, Json)>::empty());
    field(&mut o, "clispec", text(CLISPEC_VERSION));
    field(&mut o, "commands", commands());
    field(&mut o, "description", text(TOOL_DESCRIPTION));
    field(&mut o, "errors", errors());
    field(&mut o, "global_args", global_args());
    field(&mut o, "name", text("dotpick"));
    field(&mut o, "version", text(TOOL_VERSION));
    assert(entry_models(o@) =~= contract_value()->Object_0);
    Node::Object(o)
}

/// The contract as a pretty-printed JSON string.
pub fn contract_json() -> (r: String)
    ensures
        r@ == json_pretty_text(contract_value()),
{
    let c = contract();
    crate::output::json_pretty(&c)
}

} // verus!
