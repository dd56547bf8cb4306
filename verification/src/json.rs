//! The manifest's JSON encoding: a pretty-printed object
//! `{"commands": [{"op": …, "value": …}, …]}` with two-space indentation,
//! and a strict reader of the same encoding so printed manifests can be
//! read back.

use vstd::prelude::*;

use crate::ast::{Command, Manifest, command_view, manifest_view};
use crate::fmt::{
    fmt_milli_json, push_milli_json, is_digit_char, digit_char, dec_digits, frac_digits_trimmed,
    lemma_fmt_nat_json_chars, lemma_fmt_milli_json_injective, lemma_fmt_nat_json_uniform,
    lemma_dec_digits_step, lemma_dec_digits_chars, lemma_dec_digits_injective,
    lemma_frac_digits_injective, lemma_frac_digits_chars, lemma_dec_digits_first,
    lemma_dec_digits_len_le, lemma_dec_digits_len_ge, pow10,
};

verus! {

/// One array entry, indented for the pretty layout.
pub open spec fn json_entry(op: Seq<char>, v: int) -> Seq<char> {
    "    {\n      \"op\": \""@ + op + "\",\n      \"value\": "@ + fmt_milli_json(v) + "\n    }"@
}

/// All entries, joined by `,\n`.
pub open spec fn json_entries(cs: Seq<(Seq<char>, int)>) -> Seq<char>
    decreases cs.len(),
{
    if cs.len() == 0 {
        Seq::<char>::empty()
    } else if cs.len() == 1 {
        json_entry(cs[0].0, cs[0].1)
    } else {
        json_entries(cs.drop_last()) + ",\n"@ + json_entry(cs.last().0, cs.last().1)
    }
}

/// The whole document, as the pretty printer lays it out.
pub open spec fn manifest_json(cs: Seq<(Seq<char>, int)>) -> Seq<char> {
    if cs.len() == 0 {
        "{\n  \"commands\": []\n}"@
    } else {
        "{\n  \"commands\": [\n"@ + json_entries(cs) + "\n  ]\n}"@
    }
}

/// Every command operand can be negated within `i64`.
pub open spec fn manifest_values_in_range(m: Manifest) -> bool {
    forall|i: int|
        0 <= i < m.commands@.len() ==> #[trigger] m.commands@[i].value_milli != i64::MIN
}

/// Prints a manifest as pretty JSON.
pub fn manifest_to_json(m: &Manifest) -> (r: String)
    requires
        manifest_values_in_range(*m),
    ensures
        r@ == manifest_json(manifest_view(*m)),
{
    let ghost cs = manifest_view(*m);
    if m.commands.len() == 0 {
        let r = String::from_str("{\n  \"commands\": []\n}");
        proof {
            assert(cs.len() == 0);
        }
        r
    } else {
        let mut s = String::from_str("{\n  \"commands\": [\n");
        let ghost head = "{\n  \"commands\": [\n"@;
        let mut i: usize = 0;
        while i < m.commands.len()
            invariant
                i <= m.commands@.len(),
                m.commands@.len() == cs.len(),
                cs == manifest_view(*m),
                manifest_values_in_range(*m),
                s@ == head + json_entries(cs.subrange(0, i as int)),
            decreases m.commands@.len() - i,
        {
            if i > 0 {
                s.append(",\n");
            }
            push_entry(&mut s, &m.commands[i]);
            proof {
                let pre = cs.subrange(0, i as int);
                let post = cs.subrange(0, i + 1 as int);
                assert(post.drop_last() =~= pre);
                assert(post.last() == cs[i as int]);
                assert(cs[i as int] == (m.commands@[i as int].op@,
                    m.commands@[i as int].value_milli as int));
                if i == 0 {
                    assert(json_entries(pre) =~= Seq::<char>::empty());
                    assert(s@ =~= head + json_entries(post));
                } else {
                    assert(s@ =~= head + json_entries(post));
                }
            }
            i = i + 1;
        }
        proof {
            assert(cs.subrange(0, cs.len() as int) =~= cs);
        }
        s.append("\n  ]\n}");
        proof {
            assert(s@ =~= manifest_json(cs));
        }
        s
    }
}

/// An operation tag the encoding can frame: it holds no quote, so the
/// closing quote of the printed entry is unambiguous.
pub open spec fn op_quote_free(op: Seq<char>) -> bool {
    forall|j: int| 0 <= j < op.len() ==> op[j] != '"'
}

/// Every operation tag of the sequence is quote-free.
pub open spec fn ops_quote_free(cs: Seq<(Seq<char>, int)>) -> bool {
    forall|i: int| 0 <= i < cs.len() ==> op_quote_free((#[trigger] cs[i]).0)
}

/// Equal concatenations with an equal head have equal tails.
proof fn lemma_prefix_cancel(a: Seq<char>, b: Seq<char>, c: Seq<char>)
    requires
        a + b == a + c,
    ensures
        b == c,
{
    assert((a + b).len() == a.len() + b.len());
    assert((a + c).len() == a.len() + c.len());
    assert(b.len() == c.len());
    assert forall|i: int| 0 <= i < b.len() implies b[i] == c[i] by {
        assert((a + b)[a.len() + i] == b[i]);
        assert((a + c)[a.len() + i] == c[i]);
    }
    assert(b =~= c);
}

/// A separator after a separator-free segment splits a text uniquely.
proof fn lemma_sep_split(x1: Seq<char>, x2: Seq<char>, b1: Seq<char>, b2: Seq<char>, sep: char)
    requires
        forall|i: int| 0 <= i < x1.len() ==> x1[i] != sep,
        forall|i: int| 0 <= i < x2.len() ==> x2[i] != sep,
        x1 + seq![sep] + b1 == x2 + seq![sep] + b2,
    ensures
        x1 == x2,
        b1 == b2,
{
    if x1.len() < x2.len() {
        let p = x1.len() as int;
        assert((x1 + seq![sep] + b1)[p] == (x1 + seq![sep])[p]);
        assert((x1 + seq![sep])[p] == sep);
        assert((x2 + seq![sep] + b2)[p] == (x2 + seq![sep])[p]);
        assert((x2 + seq![sep])[p] == x2[p]);
        assert(false);
    }
    if x2.len() < x1.len() {
        let p = x2.len() as int;
        assert((x2 + seq![sep] + b2)[p] == (x2 + seq![sep])[p]);
        assert((x2 + seq![sep])[p] == sep);
        assert((x1 + seq![sep] + b1)[p] == (x1 + seq![sep])[p]);
        assert((x1 + seq![sep])[p] == x1[p]);
        assert(false);
    }
    assert forall|i: int| 0 <= i < x1.len() implies x1[i] == x2[i] by {
        assert((x1 + seq![sep] + b1)[i] == (x1 + seq![sep])[i]);
        assert((x1 + seq![sep])[i] == x1[i]);
        assert((x2 + seq![sep] + b2)[i] == (x2 + seq![sep])[i]);
        assert((x2 + seq![sep])[i] == x2[i]);
    }
    assert(x1 =~= x2);
    assert((x1 + seq![sep] + b1).len() == x1.len() + 1 + b1.len());
    assert((x2 + seq![sep] + b2).len() == x2.len() + 1 + b2.len());
    assert(b1.len() == b2.len());
    assert forall|i: int| 0 <= i < b1.len() implies b1[i] == b2[i] by {
        let p = x1.len() + 1 + i;
        assert((x1 + seq![sep] + b1)[p] == b1[i]);
        assert((x2 + seq![sep] + b2)[p] == b2[i]);
    }
    assert(b1 =~= b2);
}

/// An entry followed by arbitrary text determines its operation, its value,
/// and the text after it.
#[verifier::rlimit(60)]
proof fn lemma_entry_split(
    op1: Seq<char>,
    v1: int,
    op2: Seq<char>,
    v2: int,
    b1: Seq<char>,
    b2: Seq<char>,
)
    requires
        op_quote_free(op1),
        op_quote_free(op2),
        json_entry(op1, v1) + b1 == json_entry(op2, v2) + b2,
    ensures
        op1 == op2,
        v1 == v2,
        b1 == b2,
{
    reveal_strlit("    {\n      \"op\": \"");
    reveal_strlit("\",\n      \"value\": ");
    reveal_strlit(",\n      \"value\": ");
    reveal_strlit("\n    }");
    reveal_strlit("    }");
    let l1 = "    {\n      \"op\": \""@;
    let r2 = ",\n      \"value\": "@;
    let r3 = "    }"@;
    let a1 = op1 + (seq!['"'] + (r2 + (fmt_milli_json(v1) + (seq!['\n'] + (r3 + b1)))));
    let a2 = op2 + (seq!['"'] + (r2 + (fmt_milli_json(v2) + (seq!['\n'] + (r3 + b2)))));
    assert(json_entry(op1, v1) + b1 =~= l1 + a1);
    assert(json_entry(op2, v2) + b2 =~= l1 + a2);
    lemma_prefix_cancel(l1, a1, a2);
    let t1 = r2 + (fmt_milli_json(v1) + (seq!['\n'] + (r3 + b1)));
    let t2 = r2 + (fmt_milli_json(v2) + (seq!['\n'] + (r3 + b2)));
    assert(a1 =~= op1 + seq!['"'] + t1);
    assert(a2 =~= op2 + seq!['"'] + t2);
    lemma_sep_split(op1, op2, t1, t2, '"');
    lemma_prefix_cancel(
        r2,
        fmt_milli_json(v1) + (seq!['\n'] + (r3 + b1)),
        fmt_milli_json(v2) + (seq!['\n'] + (r3 + b2)),
    );
    lemma_fmt_nat_json_chars(v1);
    lemma_fmt_nat_json_chars(v2);
    assert(forall|i: int|
        0 <= i < fmt_milli_json(v1).len() ==> #[trigger] fmt_milli_json(v1)[i] != '\n');
    assert(forall|i: int|
        0 <= i < fmt_milli_json(v2).len() ==> #[trigger] fmt_milli_json(v2)[i] != '\n');
    assert(fmt_milli_json(v1) + (seq!['\n'] + (r3 + b1)) =~= fmt_milli_json(v1) + seq!['\n'] + (r3
        + b1));
    assert(fmt_milli_json(v2) + (seq!['\n'] + (r3 + b2)) =~= fmt_milli_json(v2) + seq!['\n'] + (r3
        + b2));
    lemma_sep_split(fmt_milli_json(v1), fmt_milli_json(v2), r3 + b1, r3 + b2, '\n');
    lemma_fmt_milli_json_injective(v1, v2);
    lemma_prefix_cancel(r3, b1, b2);
}

/// The entry list also unfolds from the front.
proof fn lemma_entries_front(cs: Seq<(Seq<char>, int)>)
    requires
        cs.len() >= 1,
    ensures
        cs.len() == 1 ==> json_entries(cs) == json_entry(cs[0].0, cs[0].1),
        cs.len() > 1 ==> json_entries(cs) == json_entry(cs[0].0, cs[0].1) + ",\n"@ + json_entries(
            cs.drop_first(),
        ),
    decreases cs.len(),
{
    if cs.len() > 1 {
        lemma_entries_front(cs.drop_last());
        if cs.len() == 2 {
            assert(cs.drop_last()[0] == cs[0]);
            assert(cs.drop_first().len() == 1);
            assert(cs.drop_first()[0] == cs[1]);
            assert(cs.last() == cs[1]);
            assert(json_entries(cs) == json_entry(cs[0].0, cs[0].1) + ",\n"@ + json_entry(
                cs[1].0,
                cs[1].1,
            ));
        } else {
            let d = cs.drop_first();
            assert(cs.drop_last().len() > 1);
            assert(cs.drop_last()[0] == cs[0]);
            assert(cs.drop_last().drop_first() =~= d.drop_last());
            assert(d.len() >= 2);
            assert(d.last() == cs.last());
            assert(json_entries(d) == json_entries(d.drop_last()) + ",\n"@ + json_entry(
                d.last().0,
                d.last().1,
            ));
            assert(json_entries(cs) == json_entries(cs.drop_last()) + ",\n"@ + json_entry(
                cs.last().0,
                cs.last().1,
            ));
            assert(json_entries(cs.drop_last()) == json_entry(cs[0].0, cs[0].1) + ",\n"@
                + json_entries(d.drop_last()));
            assert(json_entries(cs) =~= json_entry(cs[0].0, cs[0].1) + ",\n"@ + json_entries(d));
        }
    }
}

/// Entry lists before the closing bracket determine each other: a comma can
/// never stand where the closing bracket's newline does.
#[verifier::rlimit(100)]
#[verifier::spinoff_prover]
proof fn lemma_entries_tail_injective(cs1: Seq<(Seq<char>, int)>, cs2: Seq<(Seq<char>, int)>)
    requires
        ops_quote_free(cs1),
        ops_quote_free(cs2),
        cs1.len() >= 1,
        cs2.len() >= 1,
        json_entries(cs1) + "\n  ]\n}"@ == json_entries(cs2) + "\n  ]\n}"@,
    ensures
        cs1 == cs2,
    decreases cs1.len(),
{
    reveal_strlit("\n  ]\n}");
    reveal_strlit(",\n");
    lemma_entries_front(cs1);
    lemma_entries_front(cs2);
    let e1 = json_entry(cs1[0].0, cs1[0].1);
    let e2 = json_entry(cs2[0].0, cs2[0].1);
    let t = "\n  ]\n}"@;
    let b1 = if cs1.len() == 1 {
        t
    } else {
        ",\n"@ + (json_entries(cs1.drop_first()) + t)
    };
    let b2 = if cs2.len() == 1 {
        t
    } else {
        ",\n"@ + (json_entries(cs2.drop_first()) + t)
    };
    assert(e1 + b1 =~= json_entries(cs1) + t);
    assert(e2 + b2 =~= json_entries(cs2) + t);
    lemma_entry_split(cs1[0].0, cs1[0].1, cs2[0].0, cs2[0].1, b1, b2);
    assert(cs1[0] =~= cs2[0]);
    if cs1.len() == 1 && cs2.len() == 1 {
        assert(cs1 =~= cs2);
    } else if cs1.len() == 1 {
        assert(b1[0] == '\n');
        assert(b2[0] == (",\n"@ + (json_entries(cs2.drop_first()) + t))[0]);
        assert(b2[0] == ',');
        assert(false);
    } else if cs2.len() == 1 {
        assert(b2[0] == '\n');
        assert(b1[0] == ',');
        assert(false);
    } else {
        lemma_prefix_cancel(
            ",\n"@,
            json_entries(cs1.drop_first()) + t,
            json_entries(cs2.drop_first()) + t,
        );
        assert(ops_quote_free(cs1.drop_first()));
        assert(ops_quote_free(cs2.drop_first()));
        lemma_entries_tail_injective(cs1.drop_first(), cs2.drop_first());
        assert(cs1.len() == cs2.len());
        assert forall|i: int| 0 <= i < cs1.len() implies cs1[i] == cs2[i] by {
            if i > 0 {
                assert(cs1.drop_first()[i - 1] == cs2.drop_first()[i - 1]);
            }
        }
        assert(cs1 =~= cs2);
    }
}

/// The printed document determines the command sequence: two sequences of
/// quote-free operations with the same manifest JSON are the same sequence.
/// Any reader of the printed JSON therefore reconstructs the identical
/// ordered command list.
pub proof fn lemma_manifest_json_injective(cs1: Seq<(Seq<char>, int)>, cs2: Seq<(Seq<char>, int)>)
    requires
        ops_quote_free(cs1),
        ops_quote_free(cs2),
        manifest_json(cs1) == manifest_json(cs2),
    ensures
        cs1 == cs2,
{
    reveal_strlit("{\n  \"commands\": []\n}");
    reveal_strlit("{\n  \"commands\": [\n");
    if cs1.len() == 0 && cs2.len() == 0 {
        assert(cs1 =~= cs2);
    } else if cs1.len() == 0 {
        assert(manifest_json(cs1)[17] == ']');
        assert(manifest_json(cs2)[17] == ("{\n  \"commands\": [\n"@ + (json_entries(cs2)
            + "\n  ]\n}"@))[17]);
        assert(manifest_json(cs2) =~= "{\n  \"commands\": [\n"@ + (json_entries(cs2)
            + "\n  ]\n}"@));
        assert(manifest_json(cs2)[17] == '\n');
        assert(false);
    } else if cs2.len() == 0 {
        assert(manifest_json(cs2)[17] == ']');
        assert(manifest_json(cs1) =~= "{\n  \"commands\": [\n"@ + (json_entries(cs1)
            + "\n  ]\n}"@));
        assert(manifest_json(cs1)[17] == '\n');
        assert(false);
    } else {
        assert(manifest_json(cs1) =~= "{\n  \"commands\": [\n"@ + (json_entries(cs1)
            + "\n  ]\n}"@));
        assert(manifest_json(cs2) =~= "{\n  \"commands\": [\n"@ + (json_entries(cs2)
            + "\n  ]\n}"@));
        lemma_prefix_cancel(
            "{\n  \"commands\": [\n"@,
            json_entries(cs1) + "\n  ]\n}"@,
            json_entries(cs2) + "\n  ]\n}"@,
        );
        lemma_entries_tail_injective(cs1, cs2);
    }
}

/// Advances past `lit` if it sits at `p`; when it answers, the matched span
/// is exactly `lit`.
fn eat_lit(s: &str, p: usize, lit: &str) -> (r: Option<usize>)
    requires
        p <= s@.len(),
    ensures
        r matches Some(q) ==> p + lit@.len() == q && q <= s@.len() && s@.subrange(
            p as int,
            q as int,
        ) == lit@,
        r is None ==> !(p + lit@.len() <= s@.len() && s@.subrange(p as int, p + lit@.len())
            == lit@),
{
    let n = lit.unicode_len();
    let avail = s.unicode_len() - p;
    if n > avail {
        return None;
    }
    let mut i: usize = 0;
    while i < n
        invariant
            n == lit@.len(),
            p + n <= s@.len(),
            s@.len() <= usize::MAX,
            i <= n,
            forall|j: int| 0 <= j < i ==> s@[p + j] == lit@[j],
        decreases n - i,
    {
        if s.get_char(p + i) != lit.get_char(i) {
            proof {
                if s@.subrange(p as int, p + lit@.len()) == lit@ {
                    assert(s@.subrange(p as int, p + lit@.len())[i as int] == s@[p + i]);
                }
            }
            return None;
        }
        i = i + 1;
    }
    proof {
        assert(s@.subrange(p as int, (p + n) as int) =~= lit@);
    }
    Some(p + n)
}

/// Collects the operation tag: everything up to the next quote.
fn scan_op(s: &str, p: usize) -> (r: Option<(String, usize)>)
    requires
        p <= s@.len(),
    ensures
        r matches Some((op, q)) ==> p <= q < s@.len() && op@ == s@.subrange(p as int, q as int)
            && s@[q as int] == '"' && op_quote_free(op@),
        r is None ==> forall|k: int| p <= k < s@.len() ==> s@[k] != '"',
{
    let n = s.unicode_len();
    let mut j: usize = p;
    while j < n && s.get_char(j) != '"'
        invariant
            n == s@.len(),
            p <= j <= n,
            forall|k: int| p <= k < j ==> s@[k] != '"',
        decreases n - j,
    {
        j = j + 1;
    }
    if j < n {
        let op = s.substring_char(p, j).to_owned();
        Some((op, j))
    } else {
        None
    }
}

/// Reads one digit's value.
fn digit_val(c: char) -> (r: Option<u64>)
    ensures
        r matches Some(d) ==> d < 10 && digit_char(d as int) == c && is_digit_char(c),
        r is None ==> !is_digit_char(c),
{
    match c {
        '0' => Some(0),
        '1' => Some(1),
        '2' => Some(2),
        '3' => Some(3),
        '4' => Some(4),
        '5' => Some(5),
        '6' => Some(6),
        '7' => Some(7),
        '8' => Some(8),
        '9' => Some(9),
        _ => None,
    }
}

/// An operand the reader covers: small enough that its integer digits fit
/// the reader's thirteen-digit accumulator.
pub open spec fn value_readable(v: int) -> bool {
    -10_000_000_000_000_000 < v < 10_000_000_000_000_000
}

/// Every command operand of the sequence is within the reader's range.
pub open spec fn values_readable(cs: Seq<(Seq<char>, int)>) -> bool {
    forall|i: int| 0 <= i < cs.len() ==> value_readable((#[trigger] cs[i]).1)
}

/// The printed form of `v` sits at `p`, and no digit follows it.
pub open spec fn number_present(s: Seq<char>, p: int, v: int) -> bool {
    let t = fmt_milli_json(v);
    &&& 0 <= p
    &&& p + t.len() <= s.len()
    &&& s.subrange(p, p + t.len()) == t
    &&& (p + t.len() == s.len() || !is_digit_char(s[p + t.len()]))
}

/// The magnitude of a value.
spec fn mag(v: int) -> int {
    if v < 0 {
        -v
    } else {
        v
    }
}

/// How many characters the sign takes in the printed form.
spec fn sign_width(v: int) -> int {
    if v < 0 {
        1
    } else {
        0
    }
}

/// The integer digits of the printed form.
spec fn int_digits(v: int) -> Seq<char> {
    dec_digits((mag(v) / 1000) as nat)
}

/// The fraction digits of the printed form.
spec fn frac_digits_of(v: int) -> Seq<char> {
    frac_digits_trimmed(mag(v) % 1000)
}

/// Where each piece of a printed number sits when it is present.
proof fn lemma_number_shape(s: Seq<char>, p: int, v: int)
    requires
        number_present(s, p, v),
    ensures
        (v < 0) == (s[p] == '-'),
        int_digits(v).len() >= 1,
        1 <= frac_digits_of(v).len() <= 3,
        p + sign_width(v) + int_digits(v).len() + 1 + frac_digits_of(v).len() == p
            + fmt_milli_json(v).len(),
        p + fmt_milli_json(v).len() <= s.len(),
        forall|i: int|
            0 <= i < int_digits(v).len() ==> s[p + sign_width(v) + i] == #[trigger] int_digits(
                v,
            )[i],
        s[p + sign_width(v) + int_digits(v).len()] == '.',
        forall|i: int|
            0 <= i < frac_digits_of(v).len() ==> s[p + sign_width(v) + int_digits(v).len() + 1 + i]
                == #[trigger] frac_digits_of(v)[i],
        forall|i: int| 0 <= i < int_digits(v).len() ==> is_digit_char(#[trigger] int_digits(v)[i]),
        forall|i: int|
            0 <= i < frac_digits_of(v).len() ==> is_digit_char(#[trigger] frac_digits_of(v)[i]),
        p + fmt_milli_json(v).len() == s.len() || !is_digit_char(s[p + fmt_milli_json(v).len()]),
{
    let m = mag(v);
    let sg = sign_width(v);
    let d = int_digits(v);
    let f = frac_digits_of(v);
    let t = fmt_milli_json(v);
    lemma_fmt_nat_json_uniform(m as nat);
    lemma_dec_digits_chars((m / 1000) as nat);
    lemma_frac_digits_chars(m % 1000);
    assert forall|i: int| 0 <= i < t.len() implies s[p + i] == t[i] by {
        assert(s.subrange(p, p + t.len())[i] == s[p + i]);
    }
    if v < 0 {
        assert(t == seq!['-'] + (d + seq!['.'] + f));
        assert(t[0] == '-');
    } else {
        assert(t == d + seq!['.'] + f);
        assert(t[0] == d[0]);
        assert(is_digit_char(d[0]));
    }
    assert forall|i: int| 0 <= i < d.len() implies s[p + sg + i] == #[trigger] int_digits(v)[i] by {
        assert(t[sg + i] == d[i]);
    }
    assert(t[sg + d.len()] == '.');
    assert forall|i: int|
        0 <= i < f.len() implies s[p + sg + d.len() + 1 + i] == #[trigger] frac_digits_of(
        v,
    )[i] by {
        assert(t[sg + d.len() + 1 + i] == f[i]);
    }
}

/// A digit run of thirteen or more digits exhausts the integer part of a
/// printed number in the reader's range: no digit can follow it.
proof fn lemma_int_cap(s: Seq<char>, p0: int, v: int, pstart: int, j: int, acc: nat)
    requires
        value_readable(v),
        number_present(s, p0, v),
        (v < 0) == (s[p0] == '-'),
        pstart == p0 + sign_width(v),
        pstart < j <= s.len(),
        s.subrange(pstart, j) == dec_digits(acc),
        acc >= 1_000_000_000_000,
    ensures
        j == s.len() || !is_digit_char(s[j]),
{
    lemma_number_shape(s, p0, v);
    let m = mag(v);
    let d = int_digits(v);
    lemma_dec_digits_chars(acc);
    reveal_with_fuel(pow10, 15);
    assert(pow10(12) == 1_000_000_000_000);
    assert(pow10(13) == 10_000_000_000_000);
    lemma_dec_digits_len_ge(acc, 12);
    assert(m / 1000 < 10_000_000_000_000) by (nonlinear_arith)
        requires
            0 <= m < 10_000_000_000_000_000,
    ;
    lemma_dec_digits_len_le((m / 1000) as nat, 13);
    assert(j - pstart == dec_digits(acc).len());
    let pdot = p0 + sign_width(v) + d.len();
    assert(s[pdot] == '.');
    if pdot < j {
        assert(s.subrange(pstart, j)[pdot - pstart] == s[pdot]);
        assert(is_digit_char(dec_digits(acc)[pdot - pstart]));
    } else {
        assert(pdot == j);
        assert(!is_digit_char('.'));
    }
}

/// A maximal digit run after the sign is exactly the integer part of the
/// printed number.
proof fn lemma_int_align(s: Seq<char>, p0: int, v: int, pstart: int, j: int, acc: nat)
    requires
        value_readable(v),
        number_present(s, p0, v),
        (v < 0) == (s[p0] == '-'),
        pstart == p0 + sign_width(v),
        pstart < j <= s.len(),
        s.subrange(pstart, j) == dec_digits(acc),
        j == s.len() || !is_digit_char(s[j]),
    ensures
        acc == mag(v) / 1000,
        j == p0 + sign_width(v) + int_digits(v).len(),
{
    lemma_number_shape(s, p0, v);
    let m = mag(v);
    let d = int_digits(v);
    lemma_dec_digits_chars(acc);
    let pdot = p0 + sign_width(v) + d.len();
    assert(s[pdot] == '.');
    if pdot < j {
        assert(s.subrange(pstart, j)[pdot - pstart] == s[pdot]);
        assert(is_digit_char(dec_digits(acc)[pdot - pstart]));
        assert(false);
    }
    if pdot > j {
        let i0 = j - pstart;
        assert(0 <= i0 < d.len());
        assert(s[p0 + sign_width(v) + i0] == d[i0]);
        assert(is_digit_char(s[j]));
        assert(j < s.len());
        assert(false);
    }
    assert(pdot == j);
    assert(dec_digits(acc).len() == d.len());
    assert forall|i: int| 0 <= i < d.len() implies dec_digits(acc)[i] == d[i] by {
        assert(s.subrange(pstart, j)[i] == s[pstart + i]);
        assert(s[p0 + sign_width(v) + i] == d[i]);
    }
    assert(dec_digits(acc) =~= d);
    lemma_dec_digits_injective(acc, (m / 1000) as nat);
}

/// A lone zero after the sign is exactly the integer part of the printed
/// number.
proof fn lemma_int_align_zero(s: Seq<char>, p0: int, v: int, pstart: int)
    requires
        value_readable(v),
        number_present(s, p0, v),
        (v < 0) == (s[p0] == '-'),
        pstart == p0 + sign_width(v),
        pstart < s.len(),
        s[pstart] == '0',
    ensures
        mag(v) / 1000 == 0,
        int_digits(v).len() == 1,
{
    lemma_number_shape(s, p0, v);
    let m = mag(v);
    let d = int_digits(v);
    lemma_dec_digits_chars((m / 1000) as nat);
    assert(s[p0 + sign_width(v) + 0] == d[0]);
    if m / 1000 >= 1 {
        lemma_dec_digits_first((m / 1000) as nat);
        assert(false);
    }
}

/// How many fraction digits the printed number has, read off the two
/// digit-lookahead flags; they end exactly at the printed form's end.
proof fn lemma_frac_len(s: Seq<char>, p0: int, v: int, f1: int, two: bool, three: bool)
    requires
        value_readable(v),
        number_present(s, p0, v),
        f1 == p0 + sign_width(v) + int_digits(v).len() + 1,
        two == (f1 + 1 < s.len() && is_digit_char(s[f1 + 1])),
        three == (two && f1 + 2 < s.len() && is_digit_char(s[f1 + 2])),
    ensures
        frac_digits_of(v).len() == if three {
            3int
        } else if two {
            2int
        } else {
            1int
        },
        three ==> !(f1 + 3 < s.len() && is_digit_char(s[f1 + 3])),
        f1 + frac_digits_of(v).len() == p0 + fmt_milli_json(v).len(),
        forall|i: int|
            0 <= i < frac_digits_of(v).len() ==> s[f1 + i] == #[trigger] frac_digits_of(v)[i],
{
    lemma_number_shape(s, p0, v);
    let fr = frac_digits_of(v);
    let pend = p0 + fmt_milli_json(v).len();
    assert forall|i: int| 0 <= i < fr.len() implies s[f1 + i] == #[trigger] frac_digits_of(
        v,
    )[i] by {
        assert(s[p0 + sign_width(v) + int_digits(v).len() + 1 + i] == frac_digits_of(v)[i]);
    }
    assert(pend == f1 + fr.len());
    if fr.len() == 1 {
        assert(!two);
    } else {
        assert(s[f1 + 1] == fr[1]);
        assert(two);
        if fr.len() == 2 {
            assert(!three);
        } else {
            assert(s[f1 + 2] == fr[2]);
            assert(three);
        }
    }
}

/// The scanned fraction digits carry the printed number's fraction value.
proof fn lemma_frac_value(s: Seq<char>, p0: int, v: int, f1: int, w: int, fval: int)
    requires
        value_readable(v),
        number_present(s, p0, v),
        f1 == p0 + sign_width(v) + int_digits(v).len() + 1,
        1 <= w <= 3,
        w == frac_digits_of(v).len(),
        0 <= fval < 1000,
        s.subrange(f1, f1 + w) == frac_digits_trimmed(fval),
        forall|i: int|
            0 <= i < frac_digits_of(v).len() ==> s[f1 + i] == #[trigger] frac_digits_of(v)[i],
    ensures
        fval == mag(v) % 1000,
{
    let fr = frac_digits_of(v);
    lemma_frac_digits_chars(mag(v) % 1000);
    assert(frac_digits_trimmed(fval).len() == w);
    assert forall|i: int| 0 <= i < w implies frac_digits_trimmed(fval)[i] == fr[i] by {
        assert(s.subrange(f1, f1 + w)[i] == s[f1 + i]);
    }
    assert(frac_digits_trimmed(fval) =~= fr);
    lemma_frac_digits_injective(fval, mag(v) % 1000);
}

/// Reads a JSON number in the canonical layout the printer uses: integer
/// digits without a leading zero, a dot, and a trimmed fraction of one to
/// three digits. When it answers, the matched span is exactly the printed
/// form of the value; and whenever the printed form of a value in the
/// reader's range sits at `p0` with no digit after it, it answers that
/// value.
#[verifier::rlimit(100)]
#[verifier::spinoff_prover]
fn scan_number(s: &str, p0: usize) -> (r: Option<(i64, usize)>)
    requires
        p0 <= s@.len(),
    ensures
        r matches Some(vq) ==> p0 <= vq.1 <= s@.len() && vq.0 != i64::MIN && s@.subrange(
            p0 as int,
            vq.1 as int,
        ) == fmt_milli_json(vq.0 as int),
        forall|v: int|
            value_readable(v) && #[trigger] number_present(s@, p0 as int, v) ==> (r matches Some(
                vq,
            ) && vq.0 as int == v && vq.1 as int == p0 + fmt_milli_json(v).len()),
{
    let n = s.unicode_len();
    if p0 >= n {
        proof {
            assert forall|v: int|
                value_readable(v) && #[trigger] number_present(s@, p0 as int, v) implies false by {
                lemma_number_shape(s@, p0 as int, v);
            }
        }
        return None;
    }
    let neg = s.get_char(p0) == '-';
    let pstart = if neg {
        p0 + 1
    } else {
        p0
    };
    if pstart >= n {
        proof {
            assert forall|v: int|
                value_readable(v) && #[trigger] number_present(s@, p0 as int, v) implies false by {
                lemma_number_shape(s@, p0 as int, v);
            }
        }
        return None;
    }
    let d0 = match digit_val(s.get_char(pstart)) {
        Some(d) => d,
        None => {
            proof {
                assert forall|v: int|
                    value_readable(v) && #[trigger] number_present(s@, p0 as int, v) implies false by {
                    lemma_number_shape(s@, p0 as int, v);
                    assert(s@[p0 + sign_width(v) + 0] == int_digits(v)[0]);
                }
            }
            return None;
        },
    };
    let mut acc: u64 = d0;
    let mut j: usize = pstart + 1;
    assert(s@.subrange(pstart as int, j as int) =~= dec_digits(acc as nat));
    if d0 > 0 {
        // Further integer digits; a canonical leading zero stands alone.
        while j < n && is_digit_exec(s.get_char(j))
            invariant
                p0 < n,
                pstart as int == if neg {
                    p0 + 1int
                } else {
                    p0 as int
                },
                neg == (s@[p0 as int] == '-'),
                pstart < j <= n,
                n == s@.len(),
                s@.len() <= usize::MAX,
                1 <= acc < 10_000_000_000_000u64,
                s@.subrange(pstart as int, j as int) == dec_digits(acc as nat),
            decreases n - j,
        {
            if acc >= 1_000_000_000_000u64 {
                proof {
                    assert forall|v: int|
                        value_readable(v) && #[trigger] number_present(s@, p0 as int, v) implies false by {
                        lemma_number_shape(s@, p0 as int, v);
                        lemma_int_cap(s@, p0 as int, v, pstart as int, j as int, acc as nat);
                    }
                }
                return None;
            }
            let d = match digit_val(s.get_char(j)) {
                Some(d) => d,
                None => {
                    return None;
                },
            };
            proof {
                lemma_dec_digits_step(acc as nat, d as nat);
                assert(s@.subrange(pstart as int, j + 1 as int) =~= s@.subrange(
                    pstart as int,
                    j as int,
                ) + seq![s@[j as int]]);
            }
            acc = acc * 10 + d;
            j = j + 1;
        }
        proof {
            assert forall|v: int|
                value_readable(v) && #[trigger] number_present(s@, p0 as int, v) implies (acc as int
                == mag(v) / 1000 && j as int == p0 + sign_width(v) + int_digits(v).len()) by {
                lemma_number_shape(s@, p0 as int, v);
                lemma_int_align(s@, p0 as int, v, pstart as int, j as int, acc as nat);
            }
        }
    } else {
        proof {
            assert forall|v: int|
                value_readable(v) && #[trigger] number_present(s@, p0 as int, v) implies (acc as int
                == mag(v) / 1000 && j as int == p0 + sign_width(v) + int_digits(v).len()) by {
                lemma_number_shape(s@, p0 as int, v);
                lemma_int_align_zero(s@, p0 as int, v, pstart as int);
            }
        }
    }
    let jdot = j;
    if jdot >= n {
        proof {
            assert forall|v: int|
                value_readable(v) && #[trigger] number_present(s@, p0 as int, v) implies false by {
                lemma_number_shape(s@, p0 as int, v);
            }
        }
        return None;
    }
    if s.get_char(jdot) != '.' {
        proof {
            assert forall|v: int|
                value_readable(v) && #[trigger] number_present(s@, p0 as int, v) implies false by {
                lemma_number_shape(s@, p0 as int, v);
            }
        }
        return None;
    }
    let f1 = jdot + 1;
    if f1 >= n {
        proof {
            assert forall|v: int|
                value_readable(v) && #[trigger] number_present(s@, p0 as int, v) implies false by {
                lemma_number_shape(s@, p0 as int, v);
                assert(s@[f1 as int] == frac_digits_of(v)[0]);
            }
        }
        return None;
    }
    let d1 = match digit_val(s.get_char(f1)) {
        Some(d) => d,
        None => {
            proof {
                assert forall|v: int|
                    value_readable(v) && #[trigger] number_present(s@, p0 as int, v) implies false by {
                    lemma_number_shape(s@, p0 as int, v);
                    assert(s@[f1 as int] == frac_digits_of(v)[0]);
                    assert(is_digit_char(frac_digits_of(v)[0]));
                }
            }
            return None;
        },
    };
    let two = f1 + 1 < n && is_digit_exec(s.get_char(f1 + 1));
    let three = two && f1 + 2 < n && is_digit_exec(s.get_char(f1 + 2));
    let mut f: u64 = 0;
    let mut q: usize = 0;
    if !two {
        f = d1 * 100;
        q = f1 + 1;
        proof {
            assert(f / 100 == d1 && f % 10 == 0 && (f / 10) % 10 == 0) by (nonlinear_arith)
                requires
                    d1 < 10,
                    f == d1 * 100,
            ;
            assert(s@.subrange(f1 as int, q as int) =~= frac_digits_trimmed(f as int));
        }
    } else {
        let d2 = match digit_val(s.get_char(f1 + 1)) {
            Some(d) => d,
            None => {
                return None;
            },
        };
        if !three {
            if d2 == 0 {
                proof {
                    assert forall|v: int|
                        value_readable(v) && #[trigger] number_present(s@, p0 as int, v) implies false by {
                        lemma_number_shape(s@, p0 as int, v);
                        lemma_frac_len(s@, p0 as int, v, f1 as int, two, three);
                        assert(frac_digits_of(v).len() == 2);
                        assert(s@[f1 + 1] == frac_digits_of(v)[1]);
                        assert(frac_digits_of(v)[1] == digit_char(((mag(v) % 1000) / 10) % 10));
                        assert(s@[f1 + 1 as int] == digit_char(d2 as int));
                        assert(((mag(v) % 1000) / 10) % 10 != 0);
                    }
                }
                return None;
            }
            f = d1 * 100 + d2 * 10;
            q = f1 + 2;
            proof {
                assert(f / 100 == d1 && (f / 10) % 10 == d2 && f % 10 == 0) by (nonlinear_arith)
                    requires
                        d1 < 10,
                        d2 < 10,
                        f == d1 * 100 + d2 * 10,
                ;
                assert(s@.subrange(f1 as int, q as int) =~= frac_digits_trimmed(f as int));
            }
        } else {
            let d3 = match digit_val(s.get_char(f1 + 2)) {
                Some(d) => d,
                None => {
                    return None;
                },
            };
            if d3 == 0 {
                proof {
                    assert forall|v: int|
                        value_readable(v) && #[trigger] number_present(s@, p0 as int, v) implies false by {
                        lemma_number_shape(s@, p0 as int, v);
                        lemma_frac_len(s@, p0 as int, v, f1 as int, two, three);
                        assert(frac_digits_of(v).len() == 3);
                        assert(s@[f1 + 2] == frac_digits_of(v)[2]);
                        assert(frac_digits_of(v)[2] == digit_char((mag(v) % 1000) % 10));
                        assert(s@[f1 + 2 as int] == digit_char(d3 as int));
                        assert((mag(v) % 1000) % 10 != 0);
                    }
                }
                return None;
            }
            f = d1 * 100 + d2 * 10 + d3;
            q = f1 + 3;
            if q < n && is_digit_exec(s.get_char(q)) {
                proof {
                    assert forall|v: int|
                        value_readable(v) && #[trigger] number_present(s@, p0 as int, v) implies false by {
                        lemma_number_shape(s@, p0 as int, v);
                        lemma_frac_len(s@, p0 as int, v, f1 as int, two, three);
                    }
                }
                return None;
            }
            proof {
                assert(f / 100 == d1 && (f / 10) % 10 == d2 && f % 10 == d3) by (nonlinear_arith)
                    requires
                        d1 < 10,
                        d2 < 10,
                        d3 < 10,
                        f == d1 * 100 + d2 * 10 + d3,
                ;
                assert(s@.subrange(f1 as int, q as int) =~= frac_digits_trimmed(f as int));
            }
        }
    }
    proof {
        assert forall|v: int|
            value_readable(v) && #[trigger] number_present(s@, p0 as int, v) implies (f as int
            == mag(v) % 1000 && q as int == p0 + fmt_milli_json(v).len()) by {
            lemma_number_shape(s@, p0 as int, v);
            lemma_frac_len(s@, p0 as int, v, f1 as int, two, three);
            let w: int = if three {
                3
            } else if two {
                2
            } else {
                1
            };
            assert(q as int == f1 + w);
            lemma_frac_value(s@, p0 as int, v, f1 as int, w, f as int);
        }
    }
    let nmilli: u64 = acc * 1000 + f;
    if neg && nmilli == 0 {
        proof {
            assert forall|v: int|
                value_readable(v) && #[trigger] number_present(s@, p0 as int, v) implies false by {
                lemma_number_shape(s@, p0 as int, v);
                assert(acc as int == mag(v) / 1000 && f as int == mag(v) % 1000);
                assert(nmilli as int == mag(v)) by (nonlinear_arith)
                    requires
                        acc as int == mag(v) / 1000,
                        f as int == mag(v) % 1000,
                        0 <= mag(v),
                        nmilli == acc * 1000 + f,
                ;
                assert(v < 0);
                assert(mag(v) >= 1);
            }
        }
        return None;
    }
    let val: i64 = if neg {
        -(nmilli as i64)
    } else {
        nmilli as i64
    };
    proof {
        assert(nmilli as nat / 1000 == acc as nat && nmilli as nat % 1000 == f as nat)
            by (nonlinear_arith)
            requires
                f < 1000,
                nmilli == acc * 1000 + f,
        ;
        lemma_fmt_nat_json_uniform(nmilli as nat);
        if neg {
            assert(s@.subrange(p0 as int, q as int) =~= seq!['-'] + fmt_milli_nat_json_view(
                nmilli as nat,
            ));
        } else {
            assert(s@.subrange(p0 as int, q as int) =~= fmt_milli_nat_json_view(nmilli as nat));
        }
        assert forall|v: int|
            value_readable(v) && #[trigger] number_present(s@, p0 as int, v) implies (val as int
            == v && q as int == p0 + fmt_milli_json(v).len()) by {
            lemma_number_shape(s@, p0 as int, v);
            assert(acc as int == mag(v) / 1000 && f as int == mag(v) % 1000);
            assert(nmilli as int == mag(v)) by (nonlinear_arith)
                requires
                    acc as int == mag(v) / 1000,
                    f as int == mag(v) % 1000,
                    0 <= mag(v),
                    nmilli == acc * 1000 + f,
            ;
            assert((v < 0) == neg);
        }
    }
    Some((val, q))
}

/// The uniform split of the JSON rendering of a magnitude.
spec fn fmt_milli_nat_json_view(n: nat) -> Seq<char> {
    dec_digits(n / 1000) + seq!['.'] + frac_digits_trimmed((n % 1000) as int)
}

/// Whether the character is a decimal digit.
fn is_digit_exec(c: char) -> (b: bool)
    ensures
        b == is_digit_char(c),
{
    c == '0' || c == '1' || c == '2' || c == '3' || c == '4' || c == '5' || c == '6' || c == '7'
        || c == '8' || c == '9'
}

/// The printed form of a command sits at `p`.
pub open spec fn entry_present(s: Seq<char>, p: int, op: Seq<char>, v: int) -> bool {
    &&& 0 <= p
    &&& p + json_entry(op, v).len() <= s.len()
    &&& s.subrange(p, p + json_entry(op, v).len()) == json_entry(op, v)
}

/// Where each piece of a printed entry sits when it is present.
#[verifier::rlimit(100)]
#[verifier::spinoff_prover]
proof fn lemma_entry_parts(s: Seq<char>, p: int, op: Seq<char>, v: int)
    requires
        entry_present(s, p, op, v),
    ensures
        ({
            let l1 = "    {\n      \"op\": \""@;
            let l2 = "\",\n      \"value\": "@;
            let l3 = "\n    }"@;
            let a2 = p + l1.len() + op.len();
            let a3 = a2 + l2.len();
            let a4 = a3 + fmt_milli_json(v).len();
            &&& s.subrange(p, p + l1.len()) == l1
            &&& s.subrange(p + l1.len(), a2) == op
            &&& s.subrange(a2, a3) == l2
            &&& s[a2] == '"'
            &&& number_present(s, a3, v)
            &&& s.subrange(a4, a4 + l3.len()) == l3
            &&& a4 + l3.len() == p + json_entry(op, v).len()
        }),
{
    reveal_strlit("    {\n      \"op\": \"");
    reveal_strlit("\",\n      \"value\": ");
    reveal_strlit("\n    }");
    let l1 = "    {\n      \"op\": \""@;
    let l2 = "\",\n      \"value\": "@;
    let l3 = "\n    }"@;
    let t = json_entry(op, v);
    let u1 = l1 + op;
    let u2 = u1 + l2;
    let u3 = u2 + fmt_milli_json(v);
    let a2 = p + l1.len() + op.len();
    let a3 = a2 + l2.len();
    let a4 = a3 + fmt_milli_json(v).len();
    lemma_fmt_nat_json_chars(v);
    assert(t == u3 + l3);
    assert forall|i: int| 0 <= i < t.len() implies s[p + i] == t[i] by {
        assert(s.subrange(p, p + t.len())[i] == s[p + i]);
    }
    assert forall|i: int| 0 <= i < l1.len() implies s.subrange(p, p + l1.len())[i] == l1[i] by {
        assert(t[i] == u3[i]);
        assert(u3[i] == u2[i]);
        assert(u2[i] == u1[i]);
        assert(u1[i] == l1[i]);
    }
    assert(s.subrange(p, p + l1.len()) =~= l1);
    assert forall|i: int| 0 <= i < op.len() implies s.subrange(p + l1.len(), a2)[i] == op[i] by {
        let k = l1.len() + i;
        assert(t[k] == u3[k]);
        assert(u3[k] == u2[k]);
        assert(u2[k] == u1[k]);
        assert(u1[k] == op[i]);
    }
    assert(s.subrange(p + l1.len(), a2) =~= op);
    assert forall|i: int| 0 <= i < l2.len() implies s.subrange(a2, a3)[i] == l2[i] by {
        let k = l1.len() + op.len() + i;
        assert(t[k] == u3[k]);
        assert(u3[k] == u2[k]);
        assert(u2[k] == l2[i]);
    }
    assert(s.subrange(a2, a3) =~= l2);
    assert(s[a2] == l2[0]);
    assert forall|i: int|
        0 <= i < fmt_milli_json(v).len() implies s.subrange(a3, a4)[i] == fmt_milli_json(v)[i] by {
        let k = l1.len() + op.len() + l2.len() + i;
        assert(t[k] == u3[k]);
        assert(u3[k] == fmt_milli_json(v)[i]);
    }
    assert(s.subrange(a3, a4) =~= fmt_milli_json(v));
    assert forall|i: int| 0 <= i < l3.len() implies s.subrange(a4, a4 + l3.len())[i] == l3[i] by {
        let k = l1.len() + op.len() + l2.len() + fmt_milli_json(v).len() + i;
        assert(t[k] == l3[i]);
    }
    assert(s.subrange(a4, a4 + l3.len()) =~= l3);
    assert(s[a4] == l3[0]);
    assert(!is_digit_char('\n'));
}

/// Reads one printed entry. When it answers, the matched span is exactly
/// the printed form of the command; and whenever a printed entry with a
/// quote-free operation and an in-range value sits at `p`, it answers that
/// command.
#[verifier::rlimit(100)]
#[verifier::spinoff_prover]
fn scan_entry(s: &str, p: usize) -> (r: Option<(Command, usize)>)
    requires
        p <= s@.len(),
    ensures
        r matches Some(cq) ==> p <= cq.1 <= s@.len() && cq.0.value_milli != i64::MIN
            && op_quote_free(cq.0.op@) && s@.subrange(p as int, cq.1 as int) == json_entry(
            cq.0.op@,
            cq.0.value_milli as int,
        ),
        forall|op0: Seq<char>, v0: int|
            op_quote_free(op0) && value_readable(v0) && #[trigger] entry_present(
                s@,
                p as int,
                op0,
                v0,
            ) ==> (r matches Some(cq) && cq.0.op@ == op0 && cq.0.value_milli as int == v0
                && cq.1 as int == p + json_entry(op0, v0).len()),
{
    let p1 = match eat_lit(s, p, "    {\n      \"op\": \"") {
        Some(q) => q,
        None => {
            proof {
                assert forall|op0: Seq<char>, v0: int|
                    op_quote_free(op0) && value_readable(v0) && #[trigger] entry_present(
                        s@,
                        p as int,
                        op0,
                        v0,
                    ) implies false by {
                    lemma_entry_parts(s@, p as int, op0, v0);
                }
            }
            return None;
        },
    };
    let (op, p2) = match scan_op(s, p1) {
        Some(oq) => oq,
        None => {
            proof {
                assert forall|op0: Seq<char>, v0: int|
                    op_quote_free(op0) && value_readable(v0) && #[trigger] entry_present(
                        s@,
                        p as int,
                        op0,
                        v0,
                    ) implies false by {
                    lemma_entry_parts(s@, p as int, op0, v0);
                    let l1 = "    {\n      \"op\": \""@;
                    let a2 = p + l1.len() + op0.len();
                    assert(s@[a2] == '"');
                    assert(a2 < s@.len());
                }
            }
            return None;
        },
    };
    proof {
        assert forall|op0: Seq<char>, v0: int|
            op_quote_free(op0) && value_readable(v0) && #[trigger] entry_present(
                s@,
                p as int,
                op0,
                v0,
            ) implies (op@ == op0 && p2 as int == p1 + op0.len()) by {
            lemma_entry_parts(s@, p as int, op0, v0);
            let l1 = "    {\n      \"op\": \""@;
            let a2 = p + l1.len() + op0.len();
            assert(s@[a2] == '"');
            if p2 < a2 {
                let i0 = p2 - p1;
                assert(s@.subrange(p1 as int, a2)[i0] == s@[p2 as int]);
                assert(op0[i0] != '"');
                assert(false);
            }
            if p2 > a2 {
                assert(op@[a2 - p1] == s@.subrange(p1 as int, p2 as int)[a2 - p1]);
                assert(op@[a2 - p1] == s@[a2]);
                assert(false);
            }
            assert(p2 == a2);
            assert(op@ =~= op0);
        }
    }
    let p3 = match eat_lit(s, p2, "\",\n      \"value\": ") {
        Some(q) => q,
        None => {
            proof {
                assert forall|op0: Seq<char>, v0: int|
                    op_quote_free(op0) && value_readable(v0) && #[trigger] entry_present(
                        s@,
                        p as int,
                        op0,
                        v0,
                    ) implies false by {
                    lemma_entry_parts(s@, p as int, op0, v0);
                }
            }
            return None;
        },
    };
    let (val, p4) = match scan_number(s, p3) {
        Some(vq) => vq,
        None => {
            proof {
                assert forall|op0: Seq<char>, v0: int|
                    op_quote_free(op0) && value_readable(v0) && #[trigger] entry_present(
                        s@,
                        p as int,
                        op0,
                        v0,
                    ) implies false by {
                    lemma_entry_parts(s@, p as int, op0, v0);
                    assert(number_present(s@, p3 as int, v0));
                }
            }
            return None;
        },
    };
    proof {
        assert forall|op0: Seq<char>, v0: int|
            op_quote_free(op0) && value_readable(v0) && #[trigger] entry_present(
                s@,
                p as int,
                op0,
                v0,
            ) implies (val as int == v0 && p4 as int == p3 + fmt_milli_json(v0).len()) by {
            lemma_entry_parts(s@, p as int, op0, v0);
            assert(number_present(s@, p3 as int, v0));
        }
    }
    let p5 = match eat_lit(s, p4, "\n    }") {
        Some(q) => q,
        None => {
            proof {
                assert forall|op0: Seq<char>, v0: int|
                    op_quote_free(op0) && value_readable(v0) && #[trigger] entry_present(
                        s@,
                        p as int,
                        op0,
                        v0,
                    ) implies false by {
                    lemma_entry_parts(s@, p as int, op0, v0);
                }
            }
            return None;
        },
    };
    proof {
        assert(s@.subrange(p as int, p5 as int) =~= json_entry(op@, val as int));
    }
    Some((Command { op, value_milli: val }, p5))
}

/// The entry list splits at any interior point into the entries before it,
/// a comma joiner, and the entries after it.
#[verifier::rlimit(100)]
#[verifier::spinoff_prover]
proof fn lemma_entries_split(cs: Seq<(Seq<char>, int)>, k: int)
    requires
        0 < k < cs.len(),
    ensures
        json_entries(cs) == json_entries(cs.subrange(0, k)) + ",\n"@ + json_entries(cs.skip(k)),
    decreases cs.len(),
{
    let m = cs.len() as int;
    if k == m - 1 {
        assert(cs.drop_last() =~= cs.subrange(0, k));
        assert(cs.skip(k).len() == 1);
        assert(cs.skip(k)[0] == cs[k]);
        assert(cs.last() == cs[k]);
        assert(json_entries(cs.skip(k)) == json_entry(cs[k].0, cs[k].1));
    } else {
        lemma_entries_split(cs.drop_last(), k);
        assert(cs.drop_last().subrange(0, k) =~= cs.subrange(0, k));
        assert(cs.drop_last().skip(k) =~= cs.skip(k).drop_last());
        assert(cs.skip(k).len() >= 2);
        assert(cs.skip(k).last() == cs.last());
        assert(json_entries(cs.skip(k)) == json_entries(cs.skip(k).drop_last()) + ",\n"@
            + json_entry(cs.last().0, cs.last().1));
        assert(json_entries(cs) == json_entries(cs.drop_last()) + ",\n"@ + json_entry(
            cs.last().0,
            cs.last().1,
        ));
        assert(json_entries(cs) =~= json_entries(cs.subrange(0, k)) + ",\n"@ + json_entries(
            cs.skip(k),
        ));
    }
}

/// Where a document stands after its first `k` entries: either the next
/// entry follows (behind a comma, except for the first), or the closing
/// bracket does.
#[verifier::rlimit(100)]
#[verifier::spinoff_prover]
proof fn lemma_doc_layout(s: Seq<char>, cs: Seq<(Seq<char>, int)>, k: int)
    requires
        cs.len() >= 1,
        s == manifest_json(cs),
        0 <= k <= cs.len(),
    ensures
        ({
            let h = "{\n  \"commands\": [\n"@;
            let t = "\n  ]\n}"@;
            let p = h.len() as int + json_entries(cs.subrange(0, k)).len() as int;
            &&& p <= s.len()
            &&& (k == 0 && k < cs.len() ==> entry_present(s, p, cs[0].0, cs[0].1))
            &&& (0 < k < cs.len() ==> p + ",\n"@.len() <= s.len() && s.subrange(
                p,
                p + ",\n"@.len(),
            ) == ",\n"@ && entry_present(s, p + ",\n"@.len(), cs[k].0, cs[k].1))
            &&& (k == cs.len() ==> p + t.len() == s.len() && s.subrange(p, p + t.len()) == t)
        }),
{
    reveal_strlit(",\n");
    let h = "{\n  \"commands\": [\n"@;
    let t = "\n  ]\n}"@;
    let e = json_entries(cs);
    let p = h.len() as int + json_entries(cs.subrange(0, k)).len() as int;
    assert(s == h + e + t);
    assert(s.len() == h.len() + e.len() + t.len());
    assert forall|i: int| 0 <= i < e.len() implies s[h.len() + i] == e[i] by {
        assert((h + e + t)[h.len() + i] == (h + e)[h.len() + i]);
    }
    assert forall|i: int| 0 <= i < t.len() implies s[h.len() + e.len() + i] == t[i] by {
        assert((h + e + t)[h.len() + e.len() + i] == t[i]);
    }
    if k == cs.len() {
        assert(cs.subrange(0, k) =~= cs);
        assert(p == h.len() + e.len());
        assert forall|i: int| 0 <= i < t.len() implies s.subrange(p, p + t.len())[i] == t[i] by {
            assert(s[h.len() + e.len() + i] == t[i]);
        }
        assert(s.subrange(p, p + t.len()) =~= t);
    } else if k == 0 {
        assert(cs.subrange(0, 0).len() == 0);
        assert(json_entries(cs.subrange(0, 0)) == Seq::<char>::empty());
        assert(p == h.len());
        let en = json_entry(cs[0].0, cs[0].1);
        lemma_entries_front(cs);
        assert forall|i: int| 0 <= i < en.len() implies e[i] == en[i] by {
            if cs.len() > 1 {
                assert(e == en + ",\n"@ + json_entries(cs.drop_first()));
                assert(e[i] == (en + ",\n"@)[i]);
            }
        }
        assert(en.len() <= e.len());
        assert forall|i: int| 0 <= i < en.len() implies s.subrange(p, p + en.len())[i] == en[i] by {
            assert(s[h.len() + i] == e[i]);
        }
        assert(s.subrange(p, p + en.len()) =~= en);
        assert(entry_present(s, p, cs[0].0, cs[0].1));
    } else {
        lemma_entries_split(cs, k);
        let ek = json_entries(cs.subrange(0, k));
        let es = json_entries(cs.skip(k));
        assert(e == ek + ",\n"@ + es);
        assert(e.len() == ek.len() + 2 + es.len());
        assert forall|i: int| 0 <= i < 2 implies e[ek.len() + i] == ",\n"@[i] by {
            assert(e[ek.len() + i] == (ek + ",\n"@)[ek.len() + i]);
        }
        assert forall|i: int| 0 <= i < es.len() implies e[ek.len() + 2 + i] == es[i] by {
            assert(e[ek.len() + 2 + i] == es[i]);
        }
        assert forall|i: int|
            0 <= i < 2 implies s.subrange(p, p + ",\n"@.len())[i] == ",\n"@[i] by {
            assert(s[h.len() + (ek.len() + i)] == e[ek.len() + i]);
        }
        assert(s.subrange(p, p + ",\n"@.len()) =~= ",\n"@);
        let en = json_entry(cs[k].0, cs[k].1);
        let d = cs.skip(k);
        assert(d.len() >= 1);
        assert(d[0] == cs[k]);
        lemma_entries_front(d);
        assert forall|i: int| 0 <= i < en.len() implies es[i] == en[i] by {
            if d.len() > 1 {
                assert(es == en + ",\n"@ + json_entries(d.drop_first()));
                assert(es[i] == (en + ",\n"@)[i]);
            }
        }
        assert(en.len() <= es.len());
        assert forall|i: int|
            0 <= i < en.len() implies s.subrange(p + 2, p + 2 + en.len())[i] == en[i] by {
            assert(s[h.len() + (ek.len() + 2 + i)] == e[ek.len() + 2 + i]);
        }
        assert(s.subrange(p + 2, p + 2 + en.len()) =~= en);
        assert(entry_present(s, p + ",\n"@.len(), cs[k].0, cs[k].1));
    }
}

/// Reads a pretty-printed manifest document back: it answers exactly on the
/// output of [`manifest_to_json`]. Whenever it returns a manifest, the
/// input is that manifest's printed form — and by
/// [`lemma_manifest_json_injective`] no other command sequence prints to
/// the same text. Whenever it refuses, the input is the printed form of no
/// command sequence with quote-free operations and in-range operands.
#[verifier::rlimit(100)]
#[verifier::spinoff_prover]
pub fn manifest_from_json(s: &str) -> (r: Option<Manifest>)
    ensures
        r matches Some(m) ==> manifest_values_in_range(m) && ops_quote_free(manifest_view(m))
            && s@ == manifest_json(manifest_view(m)),
        r is None ==> forall|cs: Seq<(Seq<char>, int)>|
            ops_quote_free(cs) && values_readable(cs) ==> s@ != #[trigger] manifest_json(cs),
{
    let n = s.unicode_len();
    let em = eat_lit(s, 0, "{\n  \"commands\": []\n}");
    let empty_doc = match em {
        Some(q) => q == n,
        None => false,
    };
    if empty_doc {
        let m = Manifest { commands: Vec::new() };
        proof {
            assert(manifest_view(m) =~= Seq::<(Seq<char>, int)>::empty());
            assert(s@ =~= s@.subrange(0, s@.len() as int));
        }
        return Some(m);
    }
    let head = match eat_lit(s, 0, "{\n  \"commands\": [\n") {
        Some(q) => q,
        None => {
            proof {
                assert forall|cs: Seq<(Seq<char>, int)>|
                    ops_quote_free(cs) && values_readable(cs) implies s@ != #[trigger] manifest_json(
                    cs,
                ) by {
                    if s@ == manifest_json(cs) {
                        reveal_strlit("{\n  \"commands\": []\n}");
                        reveal_strlit("{\n  \"commands\": [\n");
                        if cs.len() == 0 {
                            assert(s@.subrange(0, "{\n  \"commands\": []\n}"@.len() as int)
                                =~= s@);
                        } else {
                            lemma_doc_layout(s@, cs, 0);
                            let h = "{\n  \"commands\": [\n"@;
                            assert(s@ == h + json_entries(cs) + "\n  ]\n}"@);
                            assert forall|i: int|
                                0 <= i < h.len() implies s@.subrange(0, h.len() as int)[i]
                                == h[i] by {
                                assert((h + json_entries(cs) + "\n  ]\n}"@)[i] == (h
                                    + json_entries(cs))[i]);
                            }
                            assert(s@.subrange(0, h.len() as int) =~= h);
                        }
                    }
                }
            }
            return None;
        },
    };
    proof {
        reveal_strlit("{\n  \"commands\": []\n}");
        reveal_strlit("{\n  \"commands\": [\n");
    }
    let mut commands: Vec<Command> = Vec::new();
    let (c0, q0) = match scan_entry(s, head) {
        Some(cq) => cq,
        None => {
            proof {
                assert forall|cs: Seq<(Seq<char>, int)>|
                    ops_quote_free(cs) && values_readable(cs) implies s@ != #[trigger] manifest_json(
                    cs,
                ) by {
                    if s@ == manifest_json(cs) {
                        if cs.len() == 0 {
                            reveal_strlit("{\n  \"commands\": []\n}");
                            reveal_strlit("{\n  \"commands\": [\n");
                            assert(s@.subrange(
                                0,
                                "{\n  \"commands\": [\n"@.len() as int,
                            )["{\n  \"commands\": [\n"@.len() as int - 1] == s@[
                                "{\n  \"commands\": [\n"@.len() as int - 1]);
                        } else {
                            lemma_doc_layout(s@, cs, 0);
                        }
                    }
                }
            }
            return None;
        },
    };
    let mut p: usize = q0;
    commands.push(c0);
    proof {
        let h = "{\n  \"commands\": [\n"@;
        let cs0 = commands@.map_values(|c: Command| command_view(c));
        assert(cs0.len() == 1);
        assert(cs0[0] == command_view(c0));
        assert(s@.subrange(0, p as int) =~= h + json_entries(cs0));
        assert forall|cs: Seq<(Seq<char>, int)>|
            ops_quote_free(cs) && values_readable(cs) && s@ == #[trigger] manifest_json(
                cs,
            ) implies (commands@.len() <= cs.len() && commands@.map_values(
            |c: Command| command_view(c),
        ) == cs.subrange(0, commands@.len() as int) && p as int == h.len() + json_entries(
            cs.subrange(0, commands@.len() as int),
        ).len()) by {
            if cs.len() == 0 {
                reveal_strlit("{\n  \"commands\": []\n}");
                assert(s@.subrange(0, h.len() as int)[h.len() as int - 1] == s@[h.len() as int
                    - 1]);
                assert(false);
            }
            lemma_doc_layout(s@, cs, 0);
            assert(entry_present(s@, head as int, cs[0].0, cs[0].1));
            assert(c0.op@ == cs[0].0 && c0.value_milli as int == cs[0].1);
            assert(command_view(c0) =~= cs[0]);
            assert(cs.subrange(0, 1).len() == 1);
            assert(cs.subrange(0, 1)[0] == cs[0]);
            assert(cs0 =~= cs.subrange(0, 1));
            assert(json_entries(cs.subrange(0, 1)) == json_entry(cs[0].0, cs[0].1));
        }
    }
    let mut done = false;
    while !done
        invariant
            p <= s@.len(),
            n == s@.len(),
            s@.len() <= usize::MAX,
            commands@.len() >= 1,
            forall|i: int|
                0 <= i < commands@.len() ==> (#[trigger] commands@[i]).value_milli != i64::MIN,
            forall|i: int| 0 <= i < commands@.len() ==> op_quote_free((#[trigger] commands@[i]).op@),
            s@.subrange(0, p as int) == "{\n  \"commands\": [\n"@ + json_entries(
                commands@.map_values(|c: Command| command_view(c)),
            ),
            forall|cs: Seq<(Seq<char>, int)>|
                ops_quote_free(cs) && values_readable(cs) && s@ == #[trigger] manifest_json(cs)
                    ==> (commands@.len() <= cs.len() && commands@.map_values(
                    |c: Command| command_view(c),
                ) == cs.subrange(0, commands@.len() as int) && p as int
                    == "{\n  \"commands\": [\n"@.len() + json_entries(
                    cs.subrange(0, commands@.len() as int),
                ).len()),
            done ==> !(p + ",\n"@.len() <= s@.len() && s@.subrange(p as int, p + ",\n"@.len())
                == ",\n"@),
        decreases s@.len() - p + (if done {
            0int
        } else {
            1int
        }),
    {
        match eat_lit(s, p, ",\n") {
            Some(p2) => {
                let (c, q) = match scan_entry(s, p2) {
                    Some(cq) => cq,
                    None => {
                        proof {
                            assert forall|cs: Seq<(Seq<char>, int)>|
                                ops_quote_free(cs) && values_readable(cs) implies s@
                                != #[trigger] manifest_json(cs) by {
                                if s@ == manifest_json(cs) {
                                    reveal_strlit("\n  ]\n}");
                                    reveal_strlit(",\n");
                                    let k = commands@.len() as int;
                                    if k == cs.len() {
                                        lemma_doc_layout(s@, cs, k);
                                        assert(s@[p as int] == '\n');
                                        assert(s@.subrange(p as int, p + 2)[0] == s@[p as int]);
                                    } else {
                                        lemma_doc_layout(s@, cs, k);
                                        assert(entry_present(s@, p2 as int, cs[k].0, cs[k].1));
                                    }
                                }
                            }
                        }
                        return None;
                    },
                };
                if q == p {
                    proof {
                        assert forall|cs: Seq<(Seq<char>, int)>|
                            ops_quote_free(cs) && values_readable(cs) implies s@
                            != #[trigger] manifest_json(cs) by {
                            if s@ == manifest_json(cs) {
                                reveal_strlit("\n  ]\n}");
                                reveal_strlit(",\n");
                                let k = commands@.len() as int;
                                if k == cs.len() {
                                    lemma_doc_layout(s@, cs, k);
                                    assert(s@[p as int] == '\n');
                                    assert(s@.subrange(p as int, p + 2)[0] == s@[p as int]);
                                } else {
                                    lemma_doc_layout(s@, cs, k);
                                    assert(entry_present(s@, p2 as int, cs[k].0, cs[k].1));
                                }
                            }
                        }
                    }
                    return None;
                }
                let ghost pre = commands@.map_values(|c0: Command| command_view(c0));
                let ghost oldp = p as int;
                commands.push(c);
                proof {
                    let h = "{\n  \"commands\": [\n"@;
                    let e = json_entry(c.op@, c.value_milli as int);
                    let csn = commands@.map_values(|c0: Command| command_view(c0));
                    assert(csn.drop_last() =~= pre);
                    assert(csn.last() == command_view(c));
                    assert(csn.len() >= 2);
                    assert(json_entries(csn) == json_entries(pre) + ",\n"@ + e);
                    assert(s@.subrange(0, p2 as int) =~= s@.subrange(0, p as int) + s@.subrange(
                        p as int,
                        p2 as int,
                    ));
                    assert(s@.subrange(0, q as int) =~= s@.subrange(0, p2 as int) + s@.subrange(
                        p2 as int,
                        q as int,
                    ));
                    assert(s@.subrange(0, q as int) == ((h + json_entries(pre)) + ",\n"@) + e);
                    assert(((h + json_entries(pre)) + ",\n"@) + e =~= h + ((json_entries(pre)
                        + ",\n"@) + e));
                    assert(s@.subrange(0, q as int) == h + json_entries(csn));
                    assert forall|cs: Seq<(Seq<char>, int)>|
                        ops_quote_free(cs) && values_readable(cs) && s@ == #[trigger] manifest_json(
                            cs,
                        ) implies (csn.len() <= cs.len() && csn == cs.subrange(
                        0,
                        csn.len() as int,
                    ) && q as int == h.len() + json_entries(cs.subrange(0, csn.len() as int)).len())
                        by {
                        reveal_strlit("\n  ]\n}");
                        reveal_strlit(",\n");
                        let k = pre.len() as int;
                        assert(pre == cs.subrange(0, k));
                        if k == cs.len() {
                            lemma_doc_layout(s@, cs, k);
                            assert(s@[oldp] == '\n');
                            assert(s@.subrange(oldp, oldp + 2)[0] == s@[oldp]);
                            assert(false);
                        }
                        lemma_doc_layout(s@, cs, k);
                        assert(entry_present(s@, p2 as int, cs[k].0, cs[k].1));
                        assert(c.op@ == cs[k].0 && c.value_milli as int == cs[k].1);
                        assert(command_view(c) =~= cs[k]);
                        assert(cs.subrange(0, k + 1).drop_last() =~= cs.subrange(0, k));
                        assert(cs.subrange(0, k + 1).last() == cs[k]);
                        assert(csn =~= cs.subrange(0, k + 1));
                        assert(json_entries(cs.subrange(0, k + 1)) == json_entries(
                            cs.subrange(0, k),
                        ) + ",\n"@ + json_entry(cs[k].0, cs[k].1));
                    }
                }
                p = q;
            },
            None => {
                done = true;
            },
        }
    }
    let endp = match eat_lit(s, p, "\n  ]\n}") {
        Some(q) => q,
        None => {
            proof {
                assert forall|cs: Seq<(Seq<char>, int)>|
                    ops_quote_free(cs) && values_readable(cs) implies s@ != #[trigger] manifest_json(
                    cs,
                ) by {
                    if s@ == manifest_json(cs) {
                        reveal_strlit("\n  ]\n}");
                        reveal_strlit(",\n");
                        let k = commands@.len() as int;
                        lemma_doc_layout(s@, cs, k);
                        if k < cs.len() {
                            assert(s@.subrange(p as int, p + ",\n"@.len()) == ",\n"@);
                        }
                    }
                }
            }
            return None;
        },
    };
    if endp != n {
        proof {
            assert forall|cs: Seq<(Seq<char>, int)>|
                ops_quote_free(cs) && values_readable(cs) implies s@ != #[trigger] manifest_json(
                cs,
            ) by {
                if s@ == manifest_json(cs) {
                    reveal_strlit("\n  ]\n}");
                    reveal_strlit(",\n");
                    let k = commands@.len() as int;
                    lemma_doc_layout(s@, cs, k);
                    if k < cs.len() {
                        assert(s@.subrange(p as int, p + ",\n"@.len()) == ",\n"@);
                    }
                }
            }
        }
        return None;
    }
    let m = Manifest { commands };
    proof {
        let cs = manifest_view(m);
        assert(cs.len() >= 1);
        assert(s@ =~= s@.subrange(0, endp as int));
        assert(s@ =~= "{\n  \"commands\": [\n"@ + json_entries(cs) + "\n  ]\n}"@);
    }
    Some(m)
}

/// Appends one printed entry.
fn push_entry(s: &mut String, c: &Command)
    requires
        c.value_milli != i64::MIN,
    ensures
        final(s)@ == old(s)@ + json_entry(c.op@, c.value_milli as int),
{
    s.append("    {\n      \"op\": \"");
    s.append(c.op.as_str());
    s.append("\",\n      \"value\": ");
    push_milli_json(s, c.value_milli);
    s.append("\n    }");
    proof {
        assert(s@ =~= old(s)@ + json_entry(c.op@, c.value_milli as int));
    }
}

} // verus!
