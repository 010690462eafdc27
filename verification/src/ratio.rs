use vstd::prelude::*;
use crate::numfmt::{spec_digits, digit_char, push_digits};
use vstd::arithmetic::div_mod::{
    lemma_fundamental_div_mod, lemma_mod_multiples_basic, lemma_small_mod,
};

verus! {

/// Greatest common divisor of two non-negative integers, Euclid's algorithm.
pub open spec fn spec_gcd(a: int, b: int) -> int
    recommends
        a >= 0,
        b >= 0,
    decreases b,
{
    if b <= 0 {
        a
    } else {
        spec_gcd(b, a % b)
    }
}

/// Greatest common divisor of two segment counts.
pub fn gcd(a: u64, b: u64) -> (r: u64)
    ensures
        r == spec_gcd(a as int, b as int),
    decreases b,
{
    if b == 0 {
        a
    } else {
        gcd(b, a % b)
    }
}

/// The canonical "A:B" text of a pair of segment counts: both divided by
/// their greatest common divisor. A pair of two zero counts has no defined
/// lowest terms; its canonical text is "0:0", which no accepted ratio equals.
pub open spec fn spec_simplify(a: int, b: int) -> Seq<char>
    recommends
        a >= 0,
        b >= 0,
{
    if a == 0 && b == 0 {
        seq!['0', ':', '0']
    } else {
        let g = spec_gcd(a, b);
        spec_digits(a / g) + seq![':'] + spec_digits(b / g)
    }
}

/// The global count ratio is accepted: it reduces to 2:1, 5:2 or 3:2.
/// Equivalently, over the plain counts: b is positive and a == 2b (2:1),
/// 2a == 5b (5:2), or 2a == 3b (3:2).
pub open spec fn accepted_counts(a: int, b: int) -> bool {
    b > 0 && (a == 2 * b || 2 * a == 5 * b || 2 * a == 3 * b)
}

/// Reduces a pair of segment counts to its canonical "A:B" text.
pub fn simplify_ratio(a: u64, b: u64) -> (r: String)
    ensures
        r@ == spec_simplify(a as int, b as int),
{
    if a == 0 && b == 0 {
        let r = String::from_str("0:0");
        proof {
            reveal_strlit("0:0");
            assert(r@ =~= spec_simplify(0, 0));
        }
        r
    } else {
        let g = gcd(a, b);
        proof {
            lemma_gcd_pos(a as int, b as int);
        }
        let mut r = String::new();
        push_digits((a / g) as u128, &mut r);
        proof {
            reveal_strlit(":");
        }
        r.append(":");
        push_digits((b / g) as u128, &mut r);
        proof {
            assert(r@ =~= spec_simplify(a as int, b as int));
        }
        r
    }
}

/// Tests whether a pair of total segment counts reduces to an accepted ratio.
pub fn is_accepted(a: u64, b: u64) -> (r: bool)
    ensures
        r == accepted_counts(a as int, b as int),
{
    let aw = a as u128;
    let bw = b as u128;
    b > 0 && (aw == 2 * bw || 2 * aw == 5 * bw || 2 * aw == 3 * bw)
}

/// The greatest common divisor of two non-negative integers, not both zero,
/// is positive.
pub proof fn lemma_gcd_pos(a: int, b: int)
    requires
        a >= 0,
        b >= 0,
        a > 0 || b > 0,
    ensures
        spec_gcd(a, b) > 0,
    decreases b,
{
    if b == 0 {
    } else {
        lemma_gcd_pos(b, a % b);
    }
}

/// An accepted pair of counts reduces to exactly one of the accepted texts
/// "2:1", "5:2" and "3:2".
pub proof fn lemma_accepted_simplify(a: int, b: int)
    requires
        a >= 0,
        b >= 0,
        accepted_counts(a, b),
    ensures
        spec_simplify(a, b) == "2:1"@ || spec_simplify(a, b) == "5:2"@ || spec_simplify(a, b)
            == "3:2"@,
{
    reveal_strlit("2:1");
    reveal_strlit("5:2");
    reveal_strlit("3:2");
    if a == 2 * b {
        assert(2 * b % b == 0) by (nonlinear_arith)
            requires
                b > 0,
        ;
        assert(spec_gcd(a, b) == spec_gcd(b, 0));
        assert(spec_gcd(a, b) == b);
        assert(a / b == 2 && b / b == 1) by (nonlinear_arith)
            requires
                a == 2 * b,
                b > 0,
        ;
        assert(spec_simplify(a, b) =~= "2:1"@);
    } else if 2 * a == 5 * b {
        let k = a - 2 * b;
        assert(b == 2 * k && a == 5 * k && k > 0);
        assert(5 * k % (2 * k) == k) by (nonlinear_arith)
            requires
                k > 0,
        ;
        assert(2 * k % k == 0) by (nonlinear_arith)
            requires
                k > 0,
        ;
        assert(spec_gcd(a, b) == spec_gcd(2 * k, k));
        assert(spec_gcd(a, b) == spec_gcd(k, 0));
        assert(a / k == 5 && b / k == 2) by (nonlinear_arith)
            requires
                a == 5 * k,
                b == 2 * k,
                k > 0,
        ;
        assert(spec_simplify(a, b) =~= "5:2"@);
    } else {
        let k = a - b;
        assert(b == 2 * k && a == 3 * k && k > 0);
        assert(3 * k % (2 * k) == k) by (nonlinear_arith)
            requires
                k > 0,
        ;
        assert(2 * k % k == 0) by (nonlinear_arith)
            requires
                k > 0,
        ;
        assert(spec_gcd(a, b) == spec_gcd(2 * k, k));
        assert(spec_gcd(a, b) == spec_gcd(k, 0));
        assert(a / k == 3 && b / k == 2) by (nonlinear_arith)
            requires
                a == 3 * k,
                b == 2 * k,
                k > 0,
        ;
        assert(spec_simplify(a, b) =~= "3:2"@);
    }
}

/// Decimal digit text is never empty.
proof fn lemma_digits_nonempty(n: int)
    ensures
        spec_digits(n).len() >= 1,
    decreases n,
{
    if n >= 10 {
        lemma_digits_nonempty(n / 10);
    }
}

/// One-character digit text names exactly its one-digit value.
proof fn lemma_digits_single(n: int, c: char)
    requires
        n >= 0,
        spec_digits(n) =~= seq![c],
    ensures
        n < 10 && c == digit_char(n),
{
    if n >= 10 {
        lemma_digits_nonempty(n / 10);
        assert(spec_digits(n).len() >= 2);
    }
    assert(spec_digits(n) =~= seq![digit_char(n)]);
    assert(c == spec_digits(n)[0]);
}

/// The greatest common divisor of two non-negative integers, not both zero,
/// divides both of them.
proof fn lemma_gcd_divides(a: int, b: int)
    requires
        a >= 0,
        b >= 0,
        a > 0 || b > 0,
    ensures
        spec_gcd(a, b) > 0,
        a % spec_gcd(a, b) == 0,
        b % spec_gcd(a, b) == 0,
    decreases b,
{
    lemma_gcd_pos(a, b);
    let g = spec_gcd(a, b);
    if b == 0 {
        assert(a % a == 0) by (nonlinear_arith)
            requires
                a > 0,
        ;
        lemma_small_mod(0, a as nat);
    } else {
        lemma_fundamental_div_mod(a, b);
        lemma_gcd_divides(b, a % b);
        let q = a / b;
        let r = a % b;
        assert(b == g * (b / g)) by {
            lemma_fundamental_div_mod(b, g);
        }
        assert(r == g * (r / g)) by {
            lemma_fundamental_div_mod(r, g);
        }
        assert(a == g * ((b / g) * q + r / g)) by (nonlinear_arith)
            requires
                a == b * q + r,
                b == g * (b / g),
                r == g * (r / g),
        ;
        lemma_mod_multiples_basic((b / g) * q + r / g, g);
        assert(a % g == 0) by (nonlinear_arith)
            requires
                a == ((b / g) * q + r / g) * g,
                (((b / g) * q + r / g) * g) % g == 0,
        ;
    }
}

/// A pair of counts reduces to one of the accepted texts only when the
/// counts stand in an accepted proportion.
proof fn lemma_simplify_accepted_only(a: int, b: int)
    requires
        a >= 0,
        b >= 0,
        spec_simplify(a, b) == "2:1"@ || spec_simplify(a, b) == "5:2"@ || spec_simplify(a, b)
            == "3:2"@,
    ensures
        accepted_counts(a, b),
{
    reveal_strlit("2:1");
    reveal_strlit("5:2");
    reveal_strlit("3:2");
    let s = spec_simplify(a, b);
    assert(s.len() == 3);
    if a == 0 && b == 0 {
        assert(s[0] == '0');
        assert(false);
    }
    let g = spec_gcd(a, b);
    lemma_gcd_divides(a, b);
    let qa = a / g;
    let qb = b / g;
    lemma_digits_nonempty(qa);
    lemma_digits_nonempty(qb);
    assert(spec_digits(qa).len() == 1 && spec_digits(qb).len() == 1);
    assert(spec_digits(qa) =~= seq![s[0]]);
    assert(spec_digits(qb) =~= seq![s[2]]);
    assert(qa >= 0 && qb >= 0) by (nonlinear_arith)
        requires
            a >= 0,
            b >= 0,
            g > 0,
            qa == a / g,
            qb == b / g,
    ;
    lemma_digits_single(qa, s[0]);
    lemma_digits_single(qb, s[2]);
    lemma_fundamental_div_mod(a, g);
    lemma_fundamental_div_mod(b, g);
    assert(a == g * qa && b == g * qb);
    if s == "2:1"@ {
        assert(digit_char(qa) == '2' && digit_char(qb) == '1');
        assert(qa == 2 && qb == 1);
        assert(a == 2 * b && b > 0) by (nonlinear_arith)
            requires
                a == g * qa,
                b == g * qb,
                qa == 2,
                qb == 1,
                g > 0,
        ;
    } else if s == "5:2"@ {
        assert(qa == 5 && qb == 2);
        assert(2 * a == 5 * b && b > 0) by (nonlinear_arith)
            requires
                a == g * qa,
                b == g * qb,
                qa == 5,
                qb == 2,
                g > 0,
        ;
    } else {
        assert(qa == 3 && qb == 2);
        assert(2 * a == 3 * b && b > 0) by (nonlinear_arith)
            requires
                a == g * qa,
                b == g * qb,
                qa == 3,
                qb == 2,
                g > 0,
        ;
    }
}

/// A pair of non-negative counts stands in an accepted proportion exactly
/// when its canonical text is one of "2:1", "5:2" and "3:2": the numeric
/// acceptance test and the text membership test agree on every pair.
pub proof fn lemma_ratio_acceptance_exact(a: int, b: int)
    requires
        a >= 0,
        b >= 0,
    ensures
        accepted_counts(a, b) <==> (spec_simplify(a, b) == "2:1"@ || spec_simplify(a, b) == "5:2"@
            || spec_simplify(a, b) == "3:2"@),
{
    if accepted_counts(a, b) {
        lemma_accepted_simplify(a, b);
    }
    if spec_simplify(a, b) == "2:1"@ || spec_simplify(a, b) == "5:2"@ || spec_simplify(a, b)
        == "3:2"@ {
        lemma_simplify_accepted_only(a, b);
    }
}

/// Two zero counts reduce to "0:0", which is none of the accepted texts.
pub proof fn lemma_zero_counts_never_accepted()
    ensures
        spec_simplify(0, 0) != "2:1"@,
        spec_simplify(0, 0) != "5:2"@,
        spec_simplify(0, 0) != "3:2"@,
        !accepted_counts(0, 0),
{
    reveal_strlit("2:1");
    reveal_strlit("5:2");
    reveal_strlit("3:2");
    assert(spec_simplify(0, 0)[0] == '0');
}

} // verus!
