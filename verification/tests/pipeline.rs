use qsgal::cli::{compile, dispatch, emit, usage_text, validate, version_text, CliAction, CliError};
use qsgal::parser::{parse_qsgal, ParseError};

const DEMO_JSON: &str = "{\n  \"commands\": [\n    {\n      \"op\": \"scale\",\n      \"value\": 1.618\n    },\n    {\n      \"op\": \"rotate_x\",\n      \"value\": 180.0\n    }\n  ]\n}";

#[test]
fn scenario_no_rule_fails_compile() {
    let r = compile("primitive seed\nattractor ratio");
    match r {
        Err(e) => assert_eq!(e.message(), "E020: No entry rule"),
        Ok(_) => panic!("compile must fail without a rule line"),
    }
}

#[test]
fn scenario_forty_rules_fails_compile() {
    let source = vec!["rule x"; 40].join("\n");
    let r = compile(&source);
    match r {
        Err(e) => assert_eq!(e.message(), "E030: RecursionLimitExceeded"),
        Ok(_) => panic!("compile must fail beyond 32 rule lines"),
    }
}

#[test]
fn scenario_single_rule_compiles_to_demo_manifest() {
    let out = compile("rule grow").expect("one rule line must compile");
    assert_eq!(out, DEMO_JSON);
}

#[test]
fn scenario_obj_target_vertex_lines() {
    let out = emit("rule grow", "obj").expect("obj emit must succeed");
    let lines: Vec<&str> = out.lines().collect();
    assert_eq!(lines[0], "# QSGAL Tesseract Export");
    assert_eq!(lines[1], "v -1 -1 -1");
    assert_eq!(lines[2], "v -1 -1 1");
    assert_eq!(lines[3], "v -1 1 -1");
    assert_eq!(lines[4], "v -1 1 1");
    assert_eq!(lines[5], "v 1 -1 -1");
    assert_eq!(lines[8], "v 1 1 1");
    assert_eq!(lines[9], "v -1.618 -1.618 -1.618");
    assert_eq!(lines[10], "v -1.618 -1.618 1.618");
    assert_eq!(lines[16], "v 1.618 1.618 1.618");
    let vcount = lines.iter().filter(|l| l.starts_with("v ")).count();
    assert_eq!(vcount, 16);
    assert_eq!(lines.len(), 17);
}

#[test]
fn scenario_unknown_target_is_refused() {
    let r = emit("rule grow", "bogus");
    match r {
        Err(CliError::UnknownTarget) => {}
        _ => panic!("an unknown target must be refused"),
    }
    assert_eq!(CliError::UnknownTarget.message(), "Unknown emit target");
}

#[test]
fn parse_counts_each_keyword_line() {
    let p = parse_qsgal("rule a\nprimitive b\nattractor c\n   junk line\nrule d").unwrap();
    assert_eq!(p.rules.len(), 2);
    assert_eq!(p.primitives.len(), 1);
    assert_eq!(p.attractors.len(), 1);
    assert_eq!(p.rules[0].name, "GROW");
    assert_eq!(p.rules[0].states.len(), 1);
    assert_eq!(p.rules[0].states[0].commands.len(), 1);
    assert_eq!(p.rules[0].states[0].commands[0].op, "scale");
    assert_eq!(p.rules[0].states[0].commands[0].value_milli, 1618);
    assert_eq!(p.primitives[0].name, "Seed");
    assert_eq!(p.primitives[0].geometry, "TETRAHEDRON");
    assert_eq!(p.attractors[0].name, "GR");
    assert_eq!(p.attractors[0].value_milli, 1618);
    assert_eq!(p.attractors[0].kind, "RATIO");
}

#[test]
fn parse_rule_limit_boundaries() {
    let at_limit = vec!["rule r"; 32].join("\n");
    assert!(parse_qsgal(&at_limit).is_ok());
    let over_limit = vec!["rule r"; 33].join("\n");
    assert_eq!(parse_qsgal(&over_limit).unwrap_err(), ParseError::RecursionLimitExceeded);
    assert_eq!(parse_qsgal("").unwrap_err(), ParseError::NoEntryRule);
    assert_eq!(parse_qsgal("primitive p").unwrap_err(), ParseError::NoEntryRule);
}

#[test]
fn parse_reads_only_the_first_token() {
    let p = parse_qsgal("   rule\tanything after\nrule").unwrap();
    assert_eq!(p.rules.len(), 2);
    assert_eq!(parse_qsgal("rulex grow\nxrule grow\nRule grow").unwrap_err(), ParseError::NoEntryRule);
}

#[test]
fn parse_trims_unicode_whitespace() {
    let p = parse_qsgal("\u{000B}rule\nrule\u{3000}x\n\u{00A0}\u{2003}rule").unwrap();
    assert_eq!(p.rules.len(), 3);
    assert_eq!(parse_qsgal("\u{200B}rule").unwrap_err(), ParseError::NoEntryRule);
}

#[test]
fn parse_accepts_carriage_return_line_endings() {
    let p = parse_qsgal("rule a\r\nrule b\r\nprimitive p\r\n").unwrap();
    assert_eq!(p.rules.len(), 2);
    assert_eq!(p.primitives.len(), 1);
}

#[test]
fn wasm_target_matches_manifest_target() {
    let a = emit("rule grow", "manifest").unwrap();
    let b = emit("rule grow", "wasm").unwrap();
    assert_eq!(a, b);
    assert_eq!(a, DEMO_JSON);
}

#[test]
fn emit_parses_before_checking_the_target() {
    let r = emit("primitive only", "bogus");
    match r {
        Err(CliError::Parse(ParseError::NoEntryRule)) => {}
        _ => panic!("a parse failure must come before the target check"),
    }
}

#[test]
fn validate_prints_the_conformance_lines() {
    let out = validate("rule grow").unwrap();
    let lines: Vec<&str> = out.lines().collect();
    assert_eq!(lines.len(), 3);
    assert_eq!(lines[0], "\u{2713} QSGAL 1.0 CONFORMANCE PASSED");
    assert_eq!(lines[1], "\u{2713} Grammar: 100% coverage");
    assert_eq!(lines[2], "\u{2713} Semantics: All rules enforced");
    match validate("no declarations here") {
        Err(CliError::Parse(ParseError::NoEntryRule)) => {}
        _ => panic!("validate must propagate the parse failure"),
    }
}

#[test]
fn dispatch_routes_each_command() {
    let args = |v: &[&str]| v.iter().map(|s| s.to_string()).collect::<Vec<String>>();
    match dispatch(&args(&["qsgal", "compile", "in.qsgal"])) {
        CliAction::Compile { input } => assert_eq!(input, "in.qsgal"),
        _ => panic!("compile must route to Compile"),
    }
    match dispatch(&args(&["qsgal", "validate", "in.qsgal"])) {
        CliAction::Validate { input } => assert_eq!(input, "in.qsgal"),
        _ => panic!("validate must route to Validate"),
    }
    match dispatch(&args(&["qsgal", "emit", "in.qsgal", "--target", "obj"])) {
        CliAction::Emit { input, target } => {
            assert_eq!(input, "in.qsgal");
            assert_eq!(target, "obj");
        }
        _ => panic!("emit must route to Emit"),
    }
    match dispatch(&args(&["qsgal", "emit", "in.qsgal"])) {
        CliAction::Emit { target, .. } => assert_eq!(target, "manifest"),
        _ => panic!("emit must default its target"),
    }
    assert!(matches!(dispatch(&args(&["qsgal", "version"])), CliAction::Version));
    assert!(matches!(dispatch(&args(&["qsgal"])), CliAction::Usage));
    assert!(matches!(dispatch(&args(&["qsgal", "frobnicate"])), CliAction::Usage));
    assert!(matches!(dispatch(&args(&["qsgal", "compile"])), CliAction::Usage));
}

#[test]
fn fixed_texts() {
    assert_eq!(version_text(), "qsgal 1.0.0 - SDK SURFACE L8\n");
    let usage = usage_text();
    assert_eq!(
        usage,
        "qsgal compile <input.qsgal>\nqsgal validate <input.qsgal>\nqsgal emit <input.qsgal> --target <manifest|obj|wasm>\nqsgal version\n"
    );
}
