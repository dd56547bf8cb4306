//! The data model: Program (the AST), its entities, and the Manifest.
//!
//! Numeric operands are held in thousandths (`value_milli`): every operand
//! the language produces is an exact multiple of 0.001, so an integer field
//! carries it without loss.

use vstd::prelude::*;

verus! {

/// One operation with a single numeric operand, the operand scaled by 1000.
#[derive(Debug)]
pub struct Command {
    pub op: String,
    pub value_milli: i64,
}

/// One state of a rule: an ordered sequence of commands.
#[derive(Debug)]
pub struct State {
    pub commands: Vec<Command>,
}

/// A named production of the language.
#[derive(Debug)]
pub struct Rule {
    pub name: String,
    pub states: Vec<State>,
}

/// A named reference to a base geometric shape.
#[derive(Debug)]
pub struct Primitive {
    pub name: String,
    pub geometry: String,
}

/// A named numeric constant referenced by rules, scaled by 1000.
#[derive(Debug)]
pub struct Attractor {
    pub name: String,
    pub value_milli: i64,
    pub kind: String,
}

/// The parsed, unvalidated representation of a source file.
#[derive(Debug)]
pub struct Program {
    pub rules: Vec<Rule>,
    pub primitives: Vec<Primitive>,
    pub attractors: Vec<Attractor>,
}

/// The post-analysis representation; structurally identical to `Program`.
pub type Ir = Program;

/// The flattened output of the manifest and wasm targets.
#[derive(Debug)]
pub struct Manifest {
    pub commands: Vec<Command>,
}

/// The mathematical value of a command: its tag and operand in thousandths.
pub open spec fn command_view(c: Command) -> (Seq<char>, int) {
    (c.op@, c.value_milli as int)
}

/// The mathematical value of a manifest: its ordered command sequence.
pub open spec fn manifest_view(m: Manifest) -> Seq<(Seq<char>, int)> {
    m.commands@.map_values(|c: Command| command_view(c))
}

/// The one rule the parser constructs for each `rule` line.
pub open spec fn is_canonical_rule(r: Rule) -> bool {
    &&& r.name@ == "GROW"@
    &&& r.states@.len() == 1
    &&& r.states@[0].commands@.len() == 1
    &&& r.states@[0].commands@[0].op@ == "scale"@
    &&& r.states@[0].commands@[0].value_milli == 1618
}

/// The one primitive the parser constructs for each `primitive` line.
pub open spec fn is_canonical_primitive(p: Primitive) -> bool {
    &&& p.name@ == "Seed"@
    &&& p.geometry@ == "TETRAHEDRON"@
}

/// The one attractor the parser constructs for each `attractor` line.
pub open spec fn is_canonical_attractor(a: Attractor) -> bool {
    &&& a.name@ == "GR"@
    &&& a.value_milli == 1618
    &&& a.kind@ == "RATIO"@
}

/// Builds the canonical rule: one state with one `scale 1.618` command.
pub fn canonical_rule() -> (r: Rule)
    ensures
        is_canonical_rule(r),
{
    let cmd = Command { op: String::from_str("scale"), value_milli: 1618 };
    let mut commands: Vec<Command> = Vec::new();
    commands.push(cmd);
    let mut states: Vec<State> = Vec::new();
    states.push(State { commands });
    Rule { name: String::from_str("GROW"), states }
}

/// Builds the canonical primitive.
pub fn canonical_primitive() -> (p: Primitive)
    ensures
        is_canonical_primitive(p),
{
    Primitive { name: String::from_str("Seed"), geometry: String::from_str("TETRAHEDRON") }
}

/// Builds the canonical attractor.
pub fn canonical_attractor() -> (a: Attractor)
    ensures
        is_canonical_attractor(a),
{
    Attractor { name: String::from_str("GR"), value_milli: 1618, kind: String::from_str("RATIO") }
}

} // verus!
