//! Decimal formatting of operands held in thousandths.
//!
//! Two renderings are needed: the mesh emitter prints a value the way Rust's
//! default float formatting would (`-1`, `1.618`: no fraction when it is
//! zero), and the manifest emitter prints JSON numbers (`180.0`, `1.618`:
//! always a fraction, trailing zeros trimmed to at least one digit).

use vstd::prelude::*;

verus! {

pub open spec fn is_digit_char(c: char) -> bool {
    c == '0' || c == '1' || c == '2' || c == '3' || c == '4' || c == '5' || c == '6' || c == '7'
        || c == '8' || c == '9'
}

pub open spec fn digit_char(d: int) -> char {
    if d == 0 {
        '0'
    } else if d == 1 {
        '1'
    } else if d == 2 {
        '2'
    } else if d == 3 {
        '3'
    } else if d == 4 {
        '4'
    } else if d == 5 {
        '5'
    } else if d == 6 {
        '6'
    } else if d == 7 {
        '7'
    } else if d == 8 {
        '8'
    } else {
        '9'
    }
}

/// The decimal digits of a natural number, most significant first.
pub open spec fn dec_digits(n: nat) -> Seq<char>
    decreases n,
{
    if n < 10 {
        seq![digit_char(n as int)]
    } else {
        dec_digits(n / 10) + seq![digit_char((n % 10) as int)]
    }
}

/// The fractional digits of `f` thousandths, trailing zeros trimmed.
pub open spec fn frac_digits_trimmed(f: int) -> Seq<char> {
    let d1 = digit_char(f / 100);
    let d2 = digit_char((f / 10) % 10);
    let d3 = digit_char(f % 10);
    if f % 10 != 0 {
        seq![d1, d2, d3]
    } else if (f / 10) % 10 != 0 {
        seq![d1, d2]
    } else {
        seq![d1]
    }
}

/// Every character of a trimmed fraction is a decimal digit.
pub proof fn lemma_frac_digits_chars(f: int)
    requires
        0 <= f < 1000,
    ensures
        1 <= frac_digits_trimmed(f).len() <= 3,
        forall|i: int|
            0 <= i < frac_digits_trimmed(f).len() ==> is_digit_char(
                #[trigger] frac_digits_trimmed(f)[i],
            ),
{
}

/// `n` thousandths in default-float style: no fraction when it is zero.
pub open spec fn fmt_milli_nat_plain(n: nat) -> Seq<char> {
    if n % 1000 == 0 {
        dec_digits(n / 1000)
    } else {
        dec_digits(n / 1000) + seq!['.'] + frac_digits_trimmed((n % 1000) as int)
    }
}

/// `n` thousandths as a JSON number: always a fraction of at least one digit.
pub open spec fn fmt_milli_nat_json(n: nat) -> Seq<char> {
    if n % 1000 == 0 {
        dec_digits(n / 1000) + seq!['.', '0']
    } else {
        dec_digits(n / 1000) + seq!['.'] + frac_digits_trimmed((n % 1000) as int)
    }
}

/// A signed value in thousandths, default-float style.
pub open spec fn fmt_milli_plain(m: int) -> Seq<char> {
    if m < 0 {
        seq!['-'] + fmt_milli_nat_plain((-m) as nat)
    } else {
        fmt_milli_nat_plain(m as nat)
    }
}

/// A signed value in thousandths, JSON style.
pub open spec fn fmt_milli_json(m: int) -> Seq<char> {
    if m < 0 {
        seq!['-'] + fmt_milli_nat_json((-m) as nat)
    } else {
        fmt_milli_nat_json(m as nat)
    }
}

/// Appends one decimal digit.
pub fn push_digit(s: &mut String, d: u64)
    requires
        d < 10,
    ensures
        final(s)@ == old(s)@ + seq![digit_char(d as int)],
{
    if d == 0 {
        s.append("0");
        proof {
            reveal_strlit("0");
            assert(s@ =~= old(s)@ + seq![digit_char(d as int)]);
        }
    } else if d == 1 {
        s.append("1");
        proof {
            reveal_strlit("1");
            assert(s@ =~= old(s)@ + seq![digit_char(d as int)]);
        }
    } else if d == 2 {
        s.append("2");
        proof {
            reveal_strlit("2");
            assert(s@ =~= old(s)@ + seq![digit_char(d as int)]);
        }
    } else if d == 3 {
        s.append("3");
        proof {
            reveal_strlit("3");
            assert(s@ =~= old(s)@ + seq![digit_char(d as int)]);
        }
    } else if d == 4 {
        s.append("4");
        proof {
            reveal_strlit("4");
            assert(s@ =~= old(s)@ + seq![digit_char(d as int)]);
        }
    } else if d == 5 {
        s.append("5");
        proof {
            reveal_strlit("5");
            assert(s@ =~= old(s)@ + seq![digit_char(d as int)]);
        }
    } else if d == 6 {
        s.append("6");
        proof {
            reveal_strlit("6");
            assert(s@ =~= old(s)@ + seq![digit_char(d as int)]);
        }
    } else if d == 7 {
        s.append("7");
        proof {
            reveal_strlit("7");
            assert(s@ =~= old(s)@ + seq![digit_char(d as int)]);
        }
    } else if d == 8 {
        s.append("8");
        proof {
            reveal_strlit("8");
            assert(s@ =~= old(s)@ + seq![digit_char(d as int)]);
        }
    } else {
        s.append("9");
        proof {
            reveal_strlit("9");
            assert(s@ =~= old(s)@ + seq![digit_char(d as int)]);
        }
    }
}

/// Appends the decimal digits of `n`.
pub fn push_dec_digits(s: &mut String, n: u64)
    ensures
        final(s)@ == old(s)@ + dec_digits(n as nat),
    decreases n,
{
    if n < 10 {
        push_digit(s, n);
    } else {
        push_dec_digits(s, n / 10);
        push_digit(s, n % 10);
        assert(s@ =~= old(s)@ + dec_digits(n as nat));
    }
}

/// Appends the trimmed fractional digits of `f` thousandths.
fn push_frac_digits(s: &mut String, f: u64)
    requires
        f < 1000,
    ensures
        final(s)@ == old(s)@ + frac_digits_trimmed(f as int),
{
    if f % 10 != 0 {
        push_digit(s, f / 100);
        push_digit(s, (f / 10) % 10);
        push_digit(s, f % 10);
        assert(s@ =~= old(s)@ + frac_digits_trimmed(f as int));
    } else if (f / 10) % 10 != 0 {
        push_digit(s, f / 100);
        push_digit(s, (f / 10) % 10);
        assert(s@ =~= old(s)@ + frac_digits_trimmed(f as int));
    } else {
        push_digit(s, f / 100);
        assert(s@ =~= old(s)@ + frac_digits_trimmed(f as int));
    }
}

/// Appends `m` thousandths in default-float style.
pub fn push_milli_plain(s: &mut String, m: i64)
    requires
        m != i64::MIN,
    ensures
        final(s)@ == old(s)@ + fmt_milli_plain(m as int),
{
    let n: u64 = if m < 0 {
        s.append("-");
        proof {
            reveal_strlit("-");
        }
        (-m) as u64
    } else {
        m as u64
    };
    if n % 1000 == 0 {
        push_dec_digits(s, n / 1000);
    } else {
        push_dec_digits(s, n / 1000);
        s.append(".");
        proof {
            reveal_strlit(".");
        }
        push_frac_digits(s, n % 1000);
    }
    assert(s@ =~= old(s)@ + fmt_milli_plain(m as int));
}

/// Appends `m` thousandths as a JSON number.
pub fn push_milli_json(s: &mut String, m: i64)
    requires
        m != i64::MIN,
    ensures
        final(s)@ == old(s)@ + fmt_milli_json(m as int),
{
    let n: u64 = if m < 0 {
        s.append("-");
        proof {
            reveal_strlit("-");
        }
        (-m) as u64
    } else {
        m as u64
    };
    if n % 1000 == 0 {
        push_dec_digits(s, n / 1000);
        s.append(".0");
        proof {
            reveal_strlit(".0");
        }
    } else {
        push_dec_digits(s, n / 1000);
        s.append(".");
        proof {
            reveal_strlit(".");
        }
        push_frac_digits(s, n % 1000);
    }
    assert(s@ =~= old(s)@ + fmt_milli_json(m as int));
}

/// Every character of `dec_digits` is a decimal digit.
pub proof fn lemma_dec_digits_chars(n: nat)
    ensures
        dec_digits(n).len() >= 1,
        n >= 10 ==> dec_digits(n).len() >= 2,
        n < 10 ==> dec_digits(n).len() == 1,
        forall|i: int| 0 <= i < dec_digits(n).len() ==> is_digit_char(#[trigger] dec_digits(n)[i]),
    decreases n,
{
    if n >= 10 {
        lemma_dec_digits_chars(n / 10);
    }
}

pub open spec fn pow10(k: nat) -> nat
    decreases k,
{
    if k == 0 {
        1
    } else {
        10 * pow10((k - 1) as nat)
    }
}

pub proof fn lemma_pow10_pos(k: nat)
    ensures
        pow10(k) >= 1,
    decreases k,
{
    if k > 0 {
        lemma_pow10_pos((k - 1) as nat);
    }
}

/// A number below `10^k` has at most `k` digits.
pub proof fn lemma_dec_digits_len_le(n: nat, k: nat)
    requires
        k >= 1,
        n < pow10(k),
    ensures
        dec_digits(n).len() <= k,
    decreases k,
{
    if n >= 10 {
        assert(pow10(k) == 10 * pow10((k - 1) as nat));
        assert(n / 10 < pow10((k - 1) as nat)) by (nonlinear_arith)
            requires
                n < 10 * pow10((k - 1) as nat),
        ;
        lemma_dec_digits_len_le(n / 10, (k - 1) as nat);
    }
}

/// A number of at least `10^k` has more than `k` digits.
pub proof fn lemma_dec_digits_len_ge(n: nat, k: nat)
    requires
        n >= pow10(k),
    ensures
        dec_digits(n).len() >= k + 1,
    decreases k,
{
    lemma_pow10_pos(k);
    if k > 0 {
        assert(pow10(k) == 10 * pow10((k - 1) as nat));
        lemma_pow10_pos((k - 1) as nat);
        assert(n >= 10);
        assert(n / 10 >= pow10((k - 1) as nat)) by (nonlinear_arith)
            requires
                n >= 10 * pow10((k - 1) as nat),
        ;
        lemma_dec_digits_len_ge(n / 10, (k - 1) as nat);
    }
}

/// A nonzero number's first digit is not zero.
pub proof fn lemma_dec_digits_first(n: nat)
    requires
        n >= 1,
    ensures
        dec_digits(n)[0] != '0',
    decreases n,
{
    if n >= 10 {
        lemma_dec_digits_first(n / 10);
        lemma_dec_digits_chars(n / 10);
        assert(dec_digits(n)[0] == dec_digits(n / 10)[0]);
    }
}

/// Appending one digit to a nonzero number appends its character.
pub proof fn lemma_dec_digits_step(acc: nat, d: nat)
    requires
        acc >= 1,
        d < 10,
    ensures
        dec_digits(acc * 10 + d) == dec_digits(acc) + seq![digit_char(d as int)],
{
    assert((acc * 10 + d) / 10 == acc && (acc * 10 + d) % 10 == d) by (nonlinear_arith)
        requires
            d < 10,
    ;
    assert(acc * 10 + d >= 10);
}

/// Two numbers with the same digits are the same number.
pub proof fn lemma_dec_digits_injective(a: nat, b: nat)
    requires
        dec_digits(a) == dec_digits(b),
    ensures
        a == b,
    decreases a,
{
    lemma_dec_digits_chars(a);
    lemma_dec_digits_chars(b);
    if a < 10 && b < 10 {
        assert(dec_digits(a)[0] == digit_char(a as int));
        assert(dec_digits(b)[0] == digit_char(b as int));
    } else if a >= 10 && b >= 10 {
        assert(dec_digits(a).last() == digit_char((a % 10) as int));
        assert(dec_digits(b).last() == digit_char((b % 10) as int));
        assert(dec_digits(a).drop_last() =~= dec_digits(a / 10));
        assert(dec_digits(b).drop_last() =~= dec_digits(b / 10));
        lemma_dec_digits_injective(a / 10, b / 10);
    } else {
        // One is a single digit, the other at least two: lengths differ.
        if a < 10 {
            assert(dec_digits(b).len() >= 2);
        } else {
            assert(dec_digits(a).len() >= 2);
        }
    }
}

/// Two fractions with the same trimmed digits are the same fraction.
pub proof fn lemma_frac_digits_injective(f: int, g: int)
    requires
        0 <= f < 1000,
        0 <= g < 1000,
        frac_digits_trimmed(f) == frac_digits_trimmed(g),
    ensures
        f == g,
{
    assert(f == 100 * (f / 100) + 10 * ((f / 10) % 10) + f % 10) by (nonlinear_arith)
        requires
            0 <= f < 1000,
    ;
    assert(g == 100 * (g / 100) + 10 * ((g / 10) % 10) + g % 10) by (nonlinear_arith)
        requires
            0 <= g < 1000,
    ;
    let tf = frac_digits_trimmed(f);
    let tg = frac_digits_trimmed(g);
    assert(tf.len() == tg.len());
    if tf.len() == 3 {
        assert(tf[0] == digit_char(f / 100) && tf[1] == digit_char((f / 10) % 10) && tf[2]
            == digit_char(f % 10));
        assert(tg[0] == digit_char(g / 100) && tg[1] == digit_char((g / 10) % 10) && tg[2]
            == digit_char(g % 10));
    } else if tf.len() == 2 {
        assert(tf[0] == digit_char(f / 100) && tf[1] == digit_char((f / 10) % 10));
        assert(tg[0] == digit_char(g / 100) && tg[1] == digit_char((g / 10) % 10));
    } else {
        assert(tf[0] == digit_char(f / 100));
        assert(tg[0] == digit_char(g / 100));
    }
}

/// The JSON rendering always splits as integer digits, a dot, and trimmed
/// fraction digits (a zero fraction trims to the single digit `0`).
pub proof fn lemma_fmt_nat_json_uniform(n: nat)
    ensures
        fmt_milli_nat_json(n) == dec_digits(n / 1000) + seq!['.'] + frac_digits_trimmed(
            (n % 1000) as int,
        ),
{
    if n % 1000 == 0 {
        assert(frac_digits_trimmed((n % 1000) as int) =~= seq!['0']);
        assert(dec_digits(n / 1000) + seq!['.', '0'] =~= dec_digits(n / 1000) + seq!['.']
            + seq!['0']);
    }
}

/// Two numbers with the same JSON rendering are the same number.
pub proof fn lemma_fmt_milli_json_injective(a: int, b: int)
    requires
        fmt_milli_json(a) == fmt_milli_json(b),
    ensures
        a == b,
{
    lemma_fmt_nat_json_chars(a);
    lemma_fmt_nat_json_chars(b);
    let na = if a < 0 {
        -a
    } else {
        a
    };
    let nb = if b < 0 {
        -b
    } else {
        b
    };
    lemma_dec_digits_chars((na / 1000) as nat);
    lemma_dec_digits_chars((nb / 1000) as nat);
    lemma_fmt_nat_json_uniform(na as nat);
    lemma_fmt_nat_json_uniform(nb as nat);
    // The sign is visible in the first character: digits are never '-'.
    assert(fmt_milli_json(a)[0] == '-' <==> a < 0);
    assert(fmt_milli_json(b)[0] == '-' <==> b < 0);
    assert((a < 0) <==> (b < 0));
    if a < 0 {
        assert(fmt_milli_nat_json(na as nat) =~= fmt_milli_json(a).drop_first());
        assert(fmt_milli_nat_json(nb as nat) =~= fmt_milli_json(b).drop_first());
    }
    lemma_fmt_nat_json_split(na as nat, nb as nat);
    lemma_dec_digits_injective((na / 1000) as nat, (nb / 1000) as nat);
    lemma_frac_digits_injective((na % 1000) as int, (nb % 1000) as int);
    assert(na == 1000 * (na / 1000) + na % 1000);
    assert(nb == 1000 * (nb / 1000) + nb % 1000);
}

/// Equal JSON renderings of magnitudes force equal digit groups: the dot
/// sits right after the integer digits, which never contain one.
proof fn lemma_fmt_nat_json_split(na: nat, nb: nat)
    requires
        fmt_milli_nat_json(na) == fmt_milli_nat_json(nb),
    ensures
        dec_digits(na / 1000) == dec_digits(nb / 1000),
        frac_digits_trimmed((na % 1000) as int) == frac_digits_trimmed((nb % 1000) as int),
{
    lemma_fmt_nat_json_uniform(na);
    lemma_fmt_nat_json_uniform(nb);
    lemma_dec_digits_chars(na / 1000);
    lemma_dec_digits_chars(nb / 1000);
    let da = dec_digits(na / 1000);
    let db = dec_digits(nb / 1000);
    let fa = frac_digits_trimmed((na % 1000) as int);
    let fb = frac_digits_trimmed((nb % 1000) as int);
    let s = fmt_milli_nat_json(na);
    assert(s == da + seq!['.'] + fa);
    assert(s == db + seq!['.'] + fb);
    if da.len() < db.len() {
        let p = da.len() as int;
        assert((da + seq!['.'] + fa)[p] == (da + seq!['.'])[p]);
        assert((da + seq!['.'])[p] == '.');
        assert((db + seq!['.'] + fb)[p] == (db + seq!['.'])[p]);
        assert((db + seq!['.'])[p] == db[p]);
        assert(is_digit_char(db[p]));
        assert(false);
    }
    if db.len() < da.len() {
        let p = db.len() as int;
        assert((db + seq!['.'] + fb)[p] == (db + seq!['.'])[p]);
        assert((db + seq!['.'])[p] == '.');
        assert((da + seq!['.'] + fa)[p] == (da + seq!['.'])[p]);
        assert((da + seq!['.'])[p] == da[p]);
        assert(is_digit_char(da[p]));
        assert(false);
    }
    assert(da.len() == db.len());
    assert forall|i: int| 0 <= i < da.len() implies da[i] == db[i] by {
        assert((da + seq!['.'] + fa)[i] == (da + seq!['.'])[i]);
        assert((da + seq!['.'])[i] == da[i]);
        assert((db + seq!['.'] + fb)[i] == (db + seq!['.'])[i]);
        assert((db + seq!['.'])[i] == db[i]);
    }
    assert(da =~= db);
    assert(fa.len() == fb.len());
    assert forall|i: int| 0 <= i < fa.len() implies fa[i] == fb[i] by {
        let p = da.len() + 1 + i;
        assert((da + seq!['.'] + fa)[p] == fa[i]);
        assert((db + seq!['.'] + fb)[p] == fb[i]);
    }
    assert(fa =~= fb);
}

/// Every character of a JSON rendering is a digit, `'-'` or `'.'`.
pub proof fn lemma_fmt_nat_json_chars(m: int)
    ensures
        fmt_milli_json(m).len() >= 1,
        forall|i: int|
            0 <= i < fmt_milli_json(m).len() ==> (is_digit_char(#[trigger] fmt_milli_json(m)[i])
                || fmt_milli_json(m)[i] == '-' || fmt_milli_json(m)[i] == '.'),
{
    let n = if m < 0 {
        -m
    } else {
        m
    };
    lemma_dec_digits_chars((n / 1000) as nat);
}

/// Every character of a plain-style rendering is a digit, `'-'` or `'.'`.
pub proof fn lemma_fmt_milli_plain_chars(m: int)
    ensures
        fmt_milli_plain(m).len() >= 1,
        forall|i: int|
            0 <= i < fmt_milli_plain(m).len() ==> (is_digit_char(#[trigger] fmt_milli_plain(m)[i])
                || fmt_milli_plain(m)[i] == '-' || fmt_milli_plain(m)[i] == '.'),
{
    let n = if m < 0 {
        -m
    } else {
        m
    };
    lemma_dec_digits_chars((n / 1000) as nat);
}

} // verus!
