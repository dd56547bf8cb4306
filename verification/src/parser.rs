//! The parser: scans the source line by line, reads only the first
//! whitespace-delimited token of each line, and appends one canonical entity
//! per recognized keyword. Unrecognized lines are skipped silently.

use vstd::prelude::*;

use crate::ast::{
    Program, is_canonical_rule, is_canonical_primitive, is_canonical_attractor, canonical_rule,
    canonical_primitive, canonical_attractor,
};
use crate::text::{
    LineKeyword, line_seqs, count_keyword, rule_line_count, primitive_line_count,
    attractor_line_count, str_chars, split_lines, line_keyword,
};

verus! {

/// A parse-time failure; the only failures the pipeline can produce.
#[derive(PartialEq, Eq, Structural, Clone, Copy, Debug)]
pub enum ParseError {
    /// `E020`: the source holds no `rule` line.
    NoEntryRule,
    /// `E030`: the source holds more than 32 `rule` lines.
    RecursionLimitExceeded,
}

/// The largest number of rules a program may declare.
pub open spec fn rule_limit() -> int {
    32
}

/// A program is exactly what one parse of the source yields: one canonical
/// entity per keyword line, in source order by kind.
pub open spec fn is_parse_of(p: Program, s: Seq<char>) -> bool {
    &&& p.rules@.len() == rule_line_count(s)
    &&& forall|i: int| 0 <= i < p.rules@.len() ==> is_canonical_rule(#[trigger] p.rules@[i])
    &&& p.primitives@.len() == primitive_line_count(s)
    &&& forall|i: int|
        0 <= i < p.primitives@.len() ==> is_canonical_primitive(#[trigger] p.primitives@[i])
    &&& p.attractors@.len() == attractor_line_count(s)
    &&& forall|i: int|
        0 <= i < p.attractors@.len() ==> is_canonical_attractor(#[trigger] p.attractors@[i])
}

/// Parses a source text into a program.
///
/// Succeeds exactly when the source holds between 1 and 32 `rule` lines;
/// a source with none fails with `NoEntryRule` (`E020`), one with more than
/// 32 fails with `RecursionLimitExceeded` (`E030`).
pub fn parse_qsgal(source: &str) -> (r: Result<Program, ParseError>)
    ensures
        r is Ok <==> 1 <= rule_line_count(source@) <= rule_limit(),
        r matches Ok(p) ==> is_parse_of(p, source@),
        r == Result::<Program, ParseError>::Err(ParseError::NoEntryRule) <==> rule_line_count(
            source@,
        ) == 0,
        r == Result::<Program, ParseError>::Err(ParseError::RecursionLimitExceeded)
            <==> rule_line_count(source@) > rule_limit(),
{
    let chars = str_chars(source);
    let lines = split_lines(&chars);
    let ghost lseqs = line_seqs(source@);

    let mut rules: Vec<crate::ast::Rule> = Vec::new();
    let mut primitives: Vec<crate::ast::Primitive> = Vec::new();
    let mut attractors: Vec<crate::ast::Attractor> = Vec::new();

    let mut i: usize = 0;
    while i < lines.len()
        invariant
            i <= lines@.len(),
            lines@.map_values(|l: Vec<char>| l@) == lseqs,
            rules@.len() == count_keyword(lseqs.subrange(0, i as int), LineKeyword::RuleDecl),
            forall|k: int| 0 <= k < rules@.len() ==> is_canonical_rule(#[trigger] rules@[k]),
            primitives@.len() == count_keyword(
                lseqs.subrange(0, i as int),
                LineKeyword::PrimitiveDecl,
            ),
            forall|k: int|
                0 <= k < primitives@.len() ==> is_canonical_primitive(#[trigger] primitives@[k]),
            attractors@.len() == count_keyword(
                lseqs.subrange(0, i as int),
                LineKeyword::AttractorDecl,
            ),
            forall|k: int|
                0 <= k < attractors@.len() ==> is_canonical_attractor(#[trigger] attractors@[k]),
        decreases lines@.len() - i,
    {
        let ghost pre = lseqs.subrange(0, i as int);
        let ghost post = lseqs.subrange(0, i + 1 as int);
        proof {
            assert(post.drop_last() =~= pre);
            assert(post.last() == lseqs[i as int]);
            assert(lseqs[i as int] == lines@.map_values(|l: Vec<char>| l@)[i as int]);
        }
        let kw = line_keyword(&lines[i]);
        match kw {
            LineKeyword::RuleDecl => {
                rules.push(canonical_rule());
            },
            LineKeyword::PrimitiveDecl => {
                primitives.push(canonical_primitive());
            },
            LineKeyword::AttractorDecl => {
                attractors.push(canonical_attractor());
            },
            LineKeyword::Other => {},
        }
        i = i + 1;
    }
    proof {
        assert(lseqs.subrange(0, lseqs.len() as int) =~= lseqs);
    }

    if rules.len() == 0 {
        Err(ParseError::NoEntryRule)
    } else if rules.len() > 32 {
        Err(ParseError::RecursionLimitExceeded)
    } else {
        Ok(Program { rules, primitives, attractors })
    }
}

} // verus!
