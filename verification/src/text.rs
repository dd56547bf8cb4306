//! Character-level text utilities: splitting a source into lines, trimming,
//! and reading the first whitespace-delimited token of a line.

use vstd::prelude::*;

verus! {

/// Whitespace, as Unicode's White_Space property defines it: the set that
/// trimming and token splitting go by. Lines are already split on `'\n'`.
pub open spec fn is_space(c: char) -> bool {
    c == ' ' || c == '\t' || c == '\n' || c == '\u{0B}' || c == '\u{0C}' || c == '\r' || c
        == '\u{85}' || c == '\u{A0}' || c == '\u{1680}' || c == '\u{2000}' || c == '\u{2001}' || c
        == '\u{2002}' || c == '\u{2003}' || c == '\u{2004}' || c == '\u{2005}' || c == '\u{2006}'
        || c == '\u{2007}' || c == '\u{2008}' || c == '\u{2009}' || c == '\u{200A}' || c
        == '\u{2028}' || c == '\u{2029}' || c == '\u{202F}' || c == '\u{205F}' || c == '\u{3000}'
}

/// Whether the character is whitespace.
pub fn is_space_exec(c: char) -> (b: bool)
    ensures
        b == is_space(c),
{
    c == ' ' || c == '\t' || c == '\n' || c == '\u{0B}' || c == '\u{0C}' || c == '\r' || c
        == '\u{85}' || c == '\u{A0}' || c == '\u{1680}' || c == '\u{2000}' || c == '\u{2001}' || c
        == '\u{2002}' || c == '\u{2003}' || c == '\u{2004}' || c == '\u{2005}' || c == '\u{2006}'
        || c == '\u{2007}' || c == '\u{2008}' || c == '\u{2009}' || c == '\u{200A}' || c
        == '\u{2028}' || c == '\u{2029}' || c == '\u{202F}' || c == '\u{205F}' || c == '\u{3000}'
}

/// The lines of a text, split on `'\n'`; a text always has at least one
/// (possibly empty) line, and a trailing `'\n'` opens a final empty line.
pub open spec fn line_seqs(s: Seq<char>) -> Seq<Seq<char>>
    decreases s.len(),
{
    if s.len() == 0 {
        seq![Seq::<char>::empty()]
    } else {
        let p = line_seqs(s.drop_last());
        if s.last() == '\n' {
            p.push(Seq::<char>::empty())
        } else {
            p.update(p.len() - 1, p.last().push(s.last()))
        }
    }
}

/// A split never yields an empty sequence of lines.
pub proof fn lemma_line_seqs_nonempty(s: Seq<char>)
    ensures
        line_seqs(s).len() >= 1,
    decreases s.len(),
{
    if s.len() > 0 {
        lemma_line_seqs_nonempty(s.drop_last());
    }
}

/// Appending newline-free text extends the open last line and nothing else.
pub proof fn lemma_line_seqs_extend(s: Seq<char>, l: Seq<char>)
    requires
        forall|i: int| 0 <= i < l.len() ==> l[i] != '\n',
    ensures
        line_seqs(s + l) == line_seqs(s).update(
            line_seqs(s).len() - 1,
            line_seqs(s).last() + l,
        ),
    decreases l.len(),
{
    lemma_line_seqs_nonempty(s);
    let p = line_seqs(s);
    if l.len() == 0 {
        assert(s + l =~= s);
        assert(p.last() + l =~= p.last());
        assert(p.update(p.len() - 1, p.last() + l) =~= p);
    } else {
        lemma_line_seqs_extend(s, l.drop_last());
        let q = line_seqs(s + l.drop_last());
        assert(s + l =~= (s + l.drop_last()).push(l.last()));
        assert((s + l).drop_last() =~= s + l.drop_last());
        assert((s + l).last() == l.last());
        assert(l.last() != '\n');
        assert(line_seqs(s + l) == q.update(q.len() - 1, q.last().push(l.last())));
        assert(q.last() == p.last() + l.drop_last());
        assert((p.last() + l.drop_last()).push(l.last()) =~= p.last() + l);
        assert(q.update(q.len() - 1, q.last().push(l.last())) =~= p.update(
            p.len() - 1,
            p.last() + l,
        ));
    }
}

/// Appending a newline closes the open line and opens an empty one.
pub proof fn lemma_line_seqs_newline(s: Seq<char>)
    ensures
        line_seqs(s + seq!['\n']) == line_seqs(s).push(Seq::<char>::empty()),
{
    assert((s + seq!['\n']).drop_last() =~= s);
    assert((s + seq!['\n']).last() == '\n');
}

/// The line with its leading whitespace removed.
pub open spec fn trim_start(l: Seq<char>) -> Seq<char>
    decreases l.len(),
{
    if l.len() > 0 && is_space(l[0]) {
        trim_start(l.drop_first())
    } else {
        l
    }
}

/// The longest non-whitespace prefix.
pub open spec fn token_prefix(l: Seq<char>) -> Seq<char>
    decreases l.len(),
{
    if l.len() > 0 && !is_space(l[0]) {
        seq![l[0]] + token_prefix(l.drop_first())
    } else {
        Seq::<char>::empty()
    }
}

/// The first whitespace-delimited token of a line (empty if there is none).
pub open spec fn first_token(l: Seq<char>) -> Seq<char> {
    token_prefix(trim_start(l))
}

/// The keyword of a line, as the parser reads it.
#[derive(PartialEq, Eq, Structural, Clone, Copy, Debug)]
pub enum LineKeyword {
    RuleDecl,
    PrimitiveDecl,
    AttractorDecl,
    Other,
}

pub open spec fn rule_kw() -> Seq<char> {
    seq!['r', 'u', 'l', 'e']
}

pub open spec fn primitive_kw() -> Seq<char> {
    seq!['p', 'r', 'i', 'm', 'i', 't', 'i', 'v', 'e']
}

pub open spec fn attractor_kw() -> Seq<char> {
    seq!['a', 't', 't', 'r', 'a', 'c', 't', 'o', 'r']
}

/// The keyword of a line at the specification level.
pub open spec fn spec_line_keyword(l: Seq<char>) -> LineKeyword {
    if first_token(l) == rule_kw() {
        LineKeyword::RuleDecl
    } else if first_token(l) == primitive_kw() {
        LineKeyword::PrimitiveDecl
    } else if first_token(l) == attractor_kw() {
        LineKeyword::AttractorDecl
    } else {
        LineKeyword::Other
    }
}

/// How many of the lines carry the given keyword.
pub open spec fn count_keyword(ls: Seq<Seq<char>>, k: LineKeyword) -> nat
    decreases ls.len(),
{
    if ls.len() == 0 {
        0
    } else {
        count_keyword(ls.drop_last(), k) + if spec_line_keyword(ls.last()) == k {
            1nat
        } else {
            0nat
        }
    }
}

/// How many lines of the whole source text start with the `rule` keyword.
pub open spec fn rule_line_count(s: Seq<char>) -> nat {
    count_keyword(line_seqs(s), LineKeyword::RuleDecl)
}

/// How many lines start with the `primitive` keyword.
pub open spec fn primitive_line_count(s: Seq<char>) -> nat {
    count_keyword(line_seqs(s), LineKeyword::PrimitiveDecl)
}

/// How many lines start with the `attractor` keyword.
pub open spec fn attractor_line_count(s: Seq<char>) -> nat {
    count_keyword(line_seqs(s), LineKeyword::AttractorDecl)
}

/// The characters of a string, as a vector.
pub fn str_chars(s: &str) -> (v: Vec<char>)
    ensures
        v@ == s@,
{
    let n: usize = s.unicode_len();
    let mut v: Vec<char> = Vec::new();
    let mut i: usize = 0;
    while i < n
        invariant
            n == s@.len(),
            i <= n,
            v@ == s@.subrange(0, i as int),
        decreases n - i,
    {
        v.push(s.get_char(i));
        assert(v@ =~= s@.subrange(0, i + 1 as int));
        i = i + 1;
    }
    assert(v@ =~= s@);
    v
}

/// Splits a character vector into its lines.
pub fn split_lines(chars: &Vec<char>) -> (ls: Vec<Vec<char>>)
    ensures
        ls@.map_values(|l: Vec<char>| l@) == line_seqs(chars@),
{
    let mut ls: Vec<Vec<char>> = Vec::new();
    let mut cur: Vec<char> = Vec::new();
    let mut i: usize = 0;
    while i < chars.len()
        invariant
            i <= chars@.len(),
            line_seqs(chars@.subrange(0, i as int)) == ls@.map_values(|l: Vec<char>| l@).push(
                cur@,
            ),
        decreases chars@.len() - i,
    {
        let ghost pre = chars@.subrange(0, i as int);
        let ghost post = chars@.subrange(0, i + 1 as int);
        assert(post.drop_last() =~= pre);
        let c = chars[i];
        assert(post.last() == c);
        if c == '\n' {
            ls.push(cur);
            cur = Vec::new();
            assert(ls@.map_values(|l: Vec<char>| l@).push(cur@) =~= line_seqs(post));
        } else {
            cur.push(c);
            assert(ls@.map_values(|l: Vec<char>| l@).push(cur@) =~= line_seqs(post));
        }
        i = i + 1;
    }
    assert(chars@.subrange(0, chars@.len() as int) =~= chars@);
    ls.push(cur);
    assert(ls@.map_values(|l: Vec<char>| l@) =~= line_seqs(chars@));
    ls
}

/// Reads the keyword of one line.
pub fn line_keyword(l: &Vec<char>) -> (k: LineKeyword)
    ensures
        k == spec_line_keyword(l@),
{
    let n = l.len();
    // Skip leading whitespace.
    let mut i: usize = 0;
    assert(l@.skip(0) =~= l@);
    while i < n && is_space_exec(l[i])
        invariant
            i <= n,
            n == l@.len(),
            trim_start(l@) == trim_start(l@.skip(i as int)),
        decreases n - i,
    {
        assert(l@.skip(i as int).drop_first() =~= l@.skip(i + 1 as int));
        i = i + 1;
    }
    assert(trim_start(l@.skip(i as int)) == l@.skip(i as int));
    assert(trim_start(l@) == l@.skip(i as int));
    // Scan the token.
    let mut j: usize = i;
    assert(l@.subrange(i as int, i as int) + token_prefix(l@.skip(i as int)) =~= token_prefix(
        l@.skip(i as int),
    ));
    while j < n && !is_space_exec(l[j])
        invariant
            i <= j <= n,
            n == l@.len(),
            trim_start(l@) == l@.skip(i as int),
            token_prefix(l@.skip(i as int)) == l@.subrange(i as int, j as int) + token_prefix(
                l@.skip(j as int),
            ),
        decreases n - j,
    {
        assert(l@.skip(j as int).drop_first() =~= l@.skip(j + 1 as int));
        assert(l@.skip(j as int)[0] == l@[j as int]);
        assert(l@.subrange(i as int, j as int) + seq![l@[j as int]] =~= l@.subrange(
            i as int,
            j + 1 as int,
        ));
        assert(l@.subrange(i as int, j as int) + (seq![l@[j as int]] + token_prefix(
            l@.skip(j + 1 as int),
        )) =~= l@.subrange(i as int, j + 1 as int) + token_prefix(l@.skip(j + 1 as int)));
        j = j + 1;
    }
    assert(token_prefix(l@.skip(j as int)) == Seq::<char>::empty());
    assert(first_token(l@) =~= l@.subrange(i as int, j as int));
    let len = j - i;
    if len == 4 && l[i] == 'r' && l[i + 1] == 'u' && l[i + 2] == 'l' && l[i + 3] == 'e' {
        assert(first_token(l@) =~= rule_kw());
        LineKeyword::RuleDecl
    } else if len == 9 && l[i] == 'p' && l[i + 1] == 'r' && l[i + 2] == 'i' && l[i + 3] == 'm'
        && l[i + 4] == 'i' && l[i + 5] == 't' && l[i + 6] == 'i' && l[i + 7] == 'v' && l[i + 8]
        == 'e' {
        assert(first_token(l@) =~= primitive_kw());
        LineKeyword::PrimitiveDecl
    } else if len == 9 && l[i] == 'a' && l[i + 1] == 't' && l[i + 2] == 't' && l[i + 3] == 'r'
        && l[i + 4] == 'a' && l[i + 5] == 'c' && l[i + 6] == 't' && l[i + 7] == 'o' && l[i + 8]
        == 'r' {
        assert(first_token(l@) =~= attractor_kw());
        LineKeyword::AttractorDecl
    } else {
        proof {
            let t = first_token(l@);
            if t == rule_kw() {
                assert(t.len() == 4 && t[0] == 'r' && t[1] == 'u' && t[2] == 'l' && t[3] == 'e');
                assert(false);
            }
            if t == primitive_kw() {
                assert(t.len() == 9 && t[0] == 'p' && t[1] == 'r' && t[2] == 'i' && t[3] == 'm'
                    && t[4] == 'i' && t[5] == 't' && t[6] == 'i' && t[7] == 'v' && t[8] == 'e');
                assert(false);
            }
            if t == attractor_kw() {
                assert(t.len() == 9 && t[0] == 'a' && t[1] == 't' && t[2] == 't' && t[3] == 'r'
                    && t[4] == 'a' && t[5] == 'c' && t[6] == 't' && t[7] == 'o' && t[8] == 'r');
                assert(false);
            }
        }
        LineKeyword::Other
    }
}

} // verus!
