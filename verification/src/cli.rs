//! The dispatcher surface: the compile/validate/emit pipelines over source
//! text, the argument router, and the fixed texts the tool prints.

use vstd::prelude::*;

use crate::analyzer::{SemanticError, analyze_semantic};
use crate::ast::manifest_view;
use crate::emit::{demo_manifest_view, emit_manifest, emit_obj, obj_text};
use crate::json::{manifest_json, manifest_to_json};
use crate::parser::{ParseError, parse_qsgal, rule_limit};
use crate::text::rule_line_count;

verus! {

/// Any failure a command can report.
#[derive(PartialEq, Eq, Structural, Clone, Copy, Debug)]
pub enum CliError {
    Parse(ParseError),
    Semantic(SemanticError),
    UnknownTarget,
}

/// The message printed for a failure, code first where one is defined.
pub open spec fn error_message(e: CliError) -> Seq<char> {
    match e {
        CliError::Parse(ParseError::NoEntryRule) => "E020: No entry rule"@,
        CliError::Parse(ParseError::RecursionLimitExceeded) => "E030: RecursionLimitExceeded"@,
        CliError::Semantic(_) => "semantic analysis failed"@,
        CliError::UnknownTarget => "Unknown emit target"@,
    }
}

impl CliError {
    /// The human-readable message for this failure.
    pub fn message(&self) -> (r: String)
        ensures
            r@ == error_message(*self),
    {
        match self {
            CliError::Parse(ParseError::NoEntryRule) => String::from_str("E020: No entry rule"),
            CliError::Parse(ParseError::RecursionLimitExceeded) => String::from_str(
                "E030: RecursionLimitExceeded",
            ),
            CliError::Semantic(_) => String::from_str("semantic analysis failed"),
            CliError::UnknownTarget => String::from_str("Unknown emit target"),
        }
    }
}

/// The manifest JSON every successful compile prints.
pub open spec fn demo_manifest_json() -> Seq<char> {
    manifest_json(demo_manifest_view())
}

/// Parse, analyze, and print the manifest as pretty JSON.
///
/// Succeeds exactly when parsing does: between 1 and 32 `rule` lines.
pub fn compile(source: &str) -> (r: Result<String, CliError>)
    ensures
        r is Ok <==> 1 <= rule_line_count(source@) <= rule_limit(),
        r matches Ok(out) ==> out@ == demo_manifest_json(),
        r == Result::<String, CliError>::Err(CliError::Parse(ParseError::NoEntryRule))
            <==> rule_line_count(source@) == 0,
        r == Result::<String, CliError>::Err(CliError::Parse(ParseError::RecursionLimitExceeded))
            <==> rule_line_count(source@) > rule_limit(),
{
    let ast = match parse_qsgal(source) {
        Ok(p) => p,
        Err(e) => {
            return Err(CliError::Parse(e));
        },
    };
    let ir = match analyze_semantic(ast) {
        Ok(ir) => ir,
        Err(e) => {
            return Err(CliError::Semantic(e));
        },
    };
    let manifest = emit_manifest(ir);
    proof {
        assert(manifest_view(manifest) == demo_manifest_view());
        assert(manifest.commands@.len() == 2);
        assert(manifest.commands@[0].value_milli as int == 1618);
        assert(manifest.commands@[1].value_milli as int == 180000);
    }
    Ok(manifest_to_json(&manifest))
}

/// The fixed conformance report a successful validation prints.
pub open spec fn conformance_text() -> Seq<char> {
    "\u{2713} QSGAL 1.0 CONFORMANCE PASSED\n\u{2713} Grammar: 100% coverage\n\u{2713} Semantics: All rules enforced\n"@
}

/// Parse only; on success return the fixed conformance report.
pub fn validate(source: &str) -> (r: Result<String, CliError>)
    ensures
        r is Ok <==> 1 <= rule_line_count(source@) <= rule_limit(),
        r matches Ok(out) ==> out@ == conformance_text(),
        r == Result::<String, CliError>::Err(CliError::Parse(ParseError::NoEntryRule))
            <==> rule_line_count(source@) == 0,
        r == Result::<String, CliError>::Err(CliError::Parse(ParseError::RecursionLimitExceeded))
            <==> rule_line_count(source@) > rule_limit(),
{
    match parse_qsgal(source) {
        Ok(_) => Ok(
            String::from_str(
                "\u{2713} QSGAL 1.0 CONFORMANCE PASSED\n\u{2713} Grammar: 100% coverage\n\u{2713} Semantics: All rules enforced\n",
            ),
        ),
        Err(e) => Err(CliError::Parse(e)),
    }
}

/// Whether the characters of two strings agree.
pub fn str_eq(a: &str, b: &str) -> (r: bool)
    ensures
        r == (a@ == b@),
{
    let na = a.unicode_len();
    let nb = b.unicode_len();
    if na != nb {
        return false;
    }
    let mut i: usize = 0;
    while i < na
        invariant
            na == a@.len(),
            na == b@.len(),
            i <= na,
            forall|j: int| 0 <= j < i ==> a@[j] == b@[j],
        decreases na - i,
    {
        if a.get_char(i) != b.get_char(i) {
            return false;
        }
        i = i + 1;
    }
    proof {
        assert(a@ =~= b@);
    }
    true
}

/// Parse, then print the chosen target: `manifest` and `wasm` share the
/// manifest JSON, `obj` prints the mesh text, anything else is refused.
pub fn emit(source: &str, target: &str) -> (r: Result<String, CliError>)
    ensures
        rule_line_count(source@) == 0 ==> r == Result::<String, CliError>::Err(
            CliError::Parse(ParseError::NoEntryRule),
        ),
        rule_line_count(source@) > rule_limit() ==> r == Result::<String, CliError>::Err(
            CliError::Parse(ParseError::RecursionLimitExceeded),
        ),
        1 <= rule_line_count(source@) <= rule_limit() ==> {
            if target@ == "obj"@ {
                r matches Ok(out) && out@ == obj_text()
            } else if target@ == "manifest"@ || target@ == "wasm"@ {
                r matches Ok(out) && out@ == demo_manifest_json()
            } else {
                r == Result::<String, CliError>::Err(CliError::UnknownTarget)
            }
        },
{
    let ast = match parse_qsgal(source) {
        Ok(p) => p,
        Err(e) => {
            return Err(CliError::Parse(e));
        },
    };
    if str_eq(target, "obj") {
        Ok(emit_obj(ast))
    } else if str_eq(target, "manifest") || str_eq(target, "wasm") {
        let manifest = emit_manifest(ast);
        proof {
            assert(manifest_view(manifest) == demo_manifest_view());
            assert(manifest.commands@.len() == 2);
            assert(manifest.commands@[0].value_milli as int == 1618);
            assert(manifest.commands@[1].value_milli as int == 180000);
        }
        Ok(manifest_to_json(&manifest))
    } else {
        Err(CliError::UnknownTarget)
    }
}

/// One routed invocation.
pub enum CliAction {
    Compile { input: String },
    Validate { input: String },
    Emit { input: String, target: String },
    Version,
    Usage,
}

pub open spec fn wants_cmd(a: Seq<String>, cmd: Seq<char>) -> bool {
    a.len() >= 3 && a[1]@ == cmd
}

pub open spec fn wants_version(a: Seq<String>) -> bool {
    a.len() >= 2 && a[1]@ == "version"@
}

/// The emit target: the fifth argument when present, else `manifest`.
pub open spec fn spec_emit_target(a: Seq<String>) -> Seq<char> {
    if a.len() >= 5 {
        a[4]@
    } else {
        "manifest"@
    }
}

/// Routes an argument vector to the action it names. An invocation whose
/// command is missing, unrecognized, or short of its input path routes to
/// `Usage`.
pub fn dispatch(args: &Vec<String>) -> (act: CliAction)
    ensures
        wants_cmd(args@, "compile"@) ==> (act matches CliAction::Compile { input } && input@
            == args@[2]@),
        wants_cmd(args@, "validate"@) ==> (act matches CliAction::Validate { input } && input@
            == args@[2]@),
        wants_cmd(args@, "emit"@) ==> (act matches CliAction::Emit { input, target } && input@
            == args@[2]@ && target@ == spec_emit_target(args@)),
        wants_version(args@) ==> act matches CliAction::Version,
        !(wants_cmd(args@, "compile"@) || wants_cmd(args@, "validate"@) || wants_cmd(
            args@,
            "emit"@,
        ) || wants_version(args@)) ==> act matches CliAction::Usage,
{
    proof {
        reveal_strlit("compile");
        reveal_strlit("validate");
        reveal_strlit("emit");
        reveal_strlit("version");
        assert("compile"@.len() == 7 && "validate"@.len() == 8 && "emit"@.len() == 4
            && "version"@.len() == 7);
        assert("compile"@[0] == 'c' && "version"@[0] == 'v');
    }
    if args.len() >= 2 {
        let cmd = &args[1];
        if args.len() >= 3 && str_eq(cmd.as_str(), "compile") {
            CliAction::Compile { input: args[2].clone() }
        } else if args.len() >= 3 && str_eq(cmd.as_str(), "validate") {
            CliAction::Validate { input: args[2].clone() }
        } else if args.len() >= 3 && str_eq(cmd.as_str(), "emit") {
            let target = if args.len() >= 5 {
                args[4].clone()
            } else {
                String::from_str("manifest")
            };
            CliAction::Emit { input: args[2].clone(), target }
        } else if str_eq(cmd.as_str(), "version") {
            CliAction::Version
        } else {
            CliAction::Usage
        }
    } else {
        CliAction::Usage
    }
}

/// The usage banner, one command per line.
pub open spec fn usage_lines() -> Seq<char> {
    "qsgal compile <input.qsgal>\nqsgal validate <input.qsgal>\nqsgal emit <input.qsgal> --target <manifest|obj|wasm>\nqsgal version\n"@
}

/// Builds the usage banner.
pub fn usage_text() -> (r: String)
    ensures
        r@ == usage_lines(),
{
    String::from_str(
        "qsgal compile <input.qsgal>\nqsgal validate <input.qsgal>\nqsgal emit <input.qsgal> --target <manifest|obj|wasm>\nqsgal version\n",
    )
}

/// The fixed version line.
pub open spec fn version_line() -> Seq<char> {
    "qsgal 1.0.0 - SDK SURFACE L8\n"@
}

/// Builds the version line.
pub fn version_text() -> (r: String)
    ensures
        r@ == version_line(),
{
    String::from_str("qsgal 1.0.0 - SDK SURFACE L8\n")
}

} // verus!
