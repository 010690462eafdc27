use vstd::prelude::*;
use vstd::arithmetic::div_mod::lemma_fundamental_div_mod;
use vstd::string::StrSliceExecFns;

verus! {

/// The numeric value of a decimal digit character, or -1 for any other
/// character.
pub open spec fn digit_val(c: char) -> int {
    if c == '0' {
        0
    } else if c == '1' {
        1
    } else if c == '2' {
        2
    } else if c == '3' {
        3
    } else if c == '4' {
        4
    } else if c == '5' {
        5
    } else if c == '6' {
        6
    } else if c == '7' {
        7
    } else if c == '8' {
        8
    } else if c == '9' {
        9
    } else {
        -1
    }
}

/// The character is a decimal digit.
pub open spec fn is_digit_char(c: char) -> bool {
    digit_val(c) >= 0
}

/// Every character of the sequence is a decimal digit.
pub open spec fn all_digits(s: Seq<char>) -> bool {
    forall|k: int| 0 <= k < s.len() ==> is_digit_char(#[trigger] s[k])
}

/// The position of the first '.' in the sequence, or its length if none.
pub open spec fn dot_pos(s: Seq<char>) -> int
    decreases s.len(),
{
    if s.len() == 0 {
        0
    } else if s[0] == '.' {
        0
    } else {
        1 + dot_pos(s.skip(1))
    }
}

/// The position of the first 'e' or 'E' in the sequence, or its length if
/// none.
pub open spec fn e_pos(s: Seq<char>) -> int
    decreases s.len(),
{
    if s.len() == 0 {
        0
    } else if s[0] == 'e' || s[0] == 'E' {
        0
    } else {
        1 + e_pos(s.skip(1))
    }
}

/// The value of a sequence of digit characters, most significant first; an
/// empty sequence has value zero.
pub open spec fn int_val(d: Seq<char>) -> int
    decreases d.len(),
{
    if d.len() == 0 {
        0
    } else {
        int_val(d.drop_last()) * 10 + digit_val(d.last())
    }
}

/// Ten to the `k`.
pub open spec fn pow10(k: nat) -> int
    decreases k,
{
    if k == 0 {
        1
    } else {
        10 * pow10((k - 1) as nat)
    }
}

/// An entry with an optional leading '+' stripped.
pub open spec fn body_of(s: Seq<char>) -> Seq<char> {
    if s.len() > 0 && s[0] == '+' {
        s.skip(1)
    } else {
        s
    }
}

/// The significand of a stripped entry: the text before the first 'e'/'E'.
pub open spec fn mantissa(t: Seq<char>) -> Seq<char> {
    t.take(e_pos(t))
}

/// The exponent text of a stripped entry: what follows the first 'e'/'E'.
pub open spec fn exp_part(t: Seq<char>) -> Seq<char> {
    if e_pos(t) < t.len() {
        t.skip(e_pos(t) + 1)
    } else {
        Seq::empty()
    }
}

/// The exponent's digit text, its optional sign stripped.
pub open spec fn exp_digits(x: Seq<char>) -> Seq<char> {
    if x.len() > 0 && (x[0] == '+' || x[0] == '-') {
        x.skip(1)
    } else {
        x
    }
}

/// The signed decimal exponent of a stripped entry; zero when none is
/// written.
pub open spec fn exp_of(t: Seq<char>) -> int {
    if e_pos(t) == t.len() {
        0
    } else {
        let x = exp_part(t);
        if x.len() > 0 && x[0] == '-' {
            -int_val(exp_digits(x))
        } else {
            int_val(exp_digits(x))
        }
    }
}

/// The integer digits of a significand: those before the first '.'.
pub open spec fn int_part(m: Seq<char>) -> Seq<char> {
    m.take(dot_pos(m))
}

/// The fractional digits of a significand: those after the first '.'.
pub open spec fn frac_part(m: Seq<char>) -> Seq<char> {
    if dot_pos(m) < m.len() {
        m.skip(dot_pos(m) + 1)
    } else {
        Seq::empty()
    }
}

/// The significand is well-formed decimal text: digits with at most one
/// embedded '.', and at least one digit.
pub open spec fn valid_mantissa(m: Seq<char>) -> bool {
    &&& all_digits(int_part(m))
    &&& all_digits(frac_part(m))
    &&& int_part(m).len() + frac_part(m).len() > 0
}

/// The entry's exponent, where one is written, is an optional sign followed
/// by at least one digit.
pub open spec fn valid_exp(t: Seq<char>) -> bool {
    e_pos(t) == t.len() || {
        let ds = exp_digits(exp_part(t));
        ds.len() > 0 && all_digits(ds)
    }
}

/// A stripped entry is a well-formed number: a decimal significand with an
/// optional 'e'/'E' exponent.
pub open spec fn valid_entry(t: Seq<char>) -> bool {
    valid_mantissa(mantissa(t)) && valid_exp(t)
}

/// The value of a stripped entry in whole millimeters. The significand's
/// digits, with the millimeter point placed by the exponent, give the whole
/// part exactly; the first digit below the millimeter rounds half up. So an
/// entry within half a millimeter of a whole-millimeter value lands on it;
/// an entry written to finer precision may land one millimeter off the 0.1 m
/// catalog grid and then fail to decompose.
pub open spec fn mm_value(t: Seq<char>) -> int {
    let m = mantissa(t);
    let d = int_part(m) + frac_part(m);
    let p = int_part(m).len() + exp_of(t) + 3;
    if p < 0 {
        0
    } else if p >= d.len() {
        int_val(d) * pow10((p - d.len()) as nat)
    } else {
        int_val(d.take(p)) + (if digit_val(d[p]) >= 5 {
            1int
        } else {
            0int
        })
    }
}

/// One raw entry, parsed as a tape length in whole millimeters. Entries that
/// are not numeric text, describe no positive length, or do not fit the
/// machine word are dropped.
pub open spec fn spec_parse_mm(s: Seq<char>) -> Option<u64> {
    let t = body_of(s);
    if valid_entry(t) && 1 <= mm_value(t) <= u64::MAX {
        Some(mm_value(t) as u64)
    } else {
        None
    }
}

/// The validated input set: each entry parsed, unparsable entries dropped,
/// input order kept.
pub open spec fn spec_parse_all(ss: Seq<Seq<char>>) -> Seq<u64>
    decreases ss.len(),
{
    if ss.len() == 0 {
        Seq::empty()
    } else {
        let rest = spec_parse_all(ss.drop_last());
        match spec_parse_mm(ss.last()) {
            Some(v) => rest.push(v),
            None => rest,
        }
    }
}

/// A digit sequence never has a negative value.
proof fn lemma_int_val_nonneg(d: Seq<char>)
    requires
        all_digits(d),
    ensures
        int_val(d) >= 0,
    decreases d.len(),
{
    if d.len() > 0 {
        assert(all_digits(d.drop_last())) by {
            assert(forall|k: int| 0 <= k < d.len() - 1 ==> #[trigger] d.drop_last()[k] == d[k]);
        }
        lemma_int_val_nonneg(d.drop_last());
    }
}

/// Ten to any power is positive.
proof fn lemma_pow10_pos(k: nat)
    ensures
        pow10(k) >= 1,
    decreases k,
{
    if k > 0 {
        lemma_pow10_pos((k - 1) as nat);
    }
}

/// Ten to a higher power is no smaller.
proof fn lemma_pow10_mono(j: nat, k: nat)
    requires
        j <= k,
    ensures
        pow10(j) <= pow10(k),
    decreases k,
{
    if j < k {
        lemma_pow10_mono(j, (k - 1) as nat);
        lemma_pow10_pos((k - 1) as nat);
    }
}

/// Ten to the twentieth already exceeds the machine word.
proof fn lemma_pow10_20()
    ensures
        pow10(20) > u64::MAX,
{
    assert(pow10(0) == 1);
    assert(pow10(1) == 10);
    assert(pow10(2) == 100);
    assert(pow10(3) == 1000);
    assert(pow10(4) == 10000);
    assert(pow10(5) == 100000);
    assert(pow10(6) == 1000000);
    assert(pow10(7) == 10000000);
    assert(pow10(8) == 100000000);
    assert(pow10(9) == 1000000000);
    assert(pow10(10) == 10000000000);
    assert(pow10(11) == 100000000000);
    assert(pow10(12) == 1000000000000);
    assert(pow10(13) == 10000000000000);
    assert(pow10(14) == 100000000000000);
    assert(pow10(15) == 1000000000000000);
    assert(pow10(16) == 10000000000000000);
    assert(pow10(17) == 100000000000000000);
    assert(pow10(18) == 1000000000000000000);
    assert(pow10(19) == 10000000000000000000);
    assert(pow10(20) == 100000000000000000000);
}

/// A value of at least one, shifted twenty or more decimal places up, does
/// not fit the machine word.
proof fn lemma_shift_overflows(v: int, k: nat)
    requires
        v >= 1,
        k >= 20,
    ensures
        v * pow10(k) > u64::MAX,
{
    lemma_pow10_20();
    lemma_pow10_mono(20, k);
    assert(v * pow10(k) >= pow10(k)) by (nonlinear_arith)
        requires
            v >= 1,
            pow10(k) >= 0,
    ;
}

/// A position with no '.' before it, and a '.' at it unless it is the end
/// of a dot-free sequence, is the first-dot position.
proof fn lemma_dot_pos_unique(s: Seq<char>, p: int)
    requires
        0 <= p <= s.len(),
        p < s.len() ==> s[p] == '.',
        forall|k: int| 0 <= k < p ==> s[k] != '.',
        p == s.len() ==> forall|k: int| 0 <= k < s.len() ==> s[k] != '.',
    ensures
        p == dot_pos(s),
    decreases s.len(),
{
    if s.len() == 0 {
    } else if s[0] == '.' {
        assert(p == 0);
    } else {
        assert(p >= 1);
        lemma_dot_pos_unique(s.skip(1), p - 1);
    }
}

/// The same, for the first 'e' or 'E'.
proof fn lemma_e_pos_unique(s: Seq<char>, p: int)
    requires
        0 <= p <= s.len(),
        p < s.len() ==> (s[p] == 'e' || s[p] == 'E'),
        forall|k: int| 0 <= k < p ==> !(s[k] == 'e' || s[k] == 'E'),
        p == s.len() ==> forall|k: int| 0 <= k < s.len() ==> !(s[k] == 'e' || s[k] == 'E'),
    ensures
        p == e_pos(s),
    decreases s.len(),
{
    if s.len() == 0 {
    } else if s[0] == 'e' || s[0] == 'E' {
        assert(p == 0);
    } else {
        assert(p >= 1);
        lemma_e_pos_unique(s.skip(1), p - 1);
    }
}

/// One decimal digit of a character, if it is one.
fn digit_of(c: char) -> (r: Option<u64>)
    ensures
        r matches Some(d) ==> digit_val(c) == d && d < 10,
        r is None ==> digit_val(c) < 0,
{
    if c == '0' {
        Some(0)
    } else if c == '1' {
        Some(1)
    } else if c == '2' {
        Some(2)
    } else if c == '3' {
        Some(3)
    } else if c == '4' {
        Some(4)
    } else if c == '5' {
        Some(5)
    } else if c == '6' {
        Some(6)
    } else if c == '7' {
        Some(7)
    } else if c == '8' {
        Some(8)
    } else if c == '9' {
        Some(9)
    } else {
        None
    }
}

/// The significand's digits in order, the dot left out: the text from `pos`
/// to `dotp`, then the text from past the dot to `ep`.
pub open spec fn sig_digits(s: Seq<char>, pos: int, dotp: int, ep: int) -> Seq<char> {
    s.subrange(pos, dotp) + if dotp < ep {
        s.subrange(dotp + 1, ep)
    } else {
        Seq::empty()
    }
}

/// Reads the exponent's digit run, saturating far past any position the
/// significand's digits could reach.
#[verifier::loop_isolation(false)]
fn parse_exp_digits(s: &str, xi: usize, n: usize) -> (r: Option<(u128, bool)>)
    requires
        xi < n,
        n == s@.len(),
    ensures
        r is None ==> !all_digits(s@.subrange(xi as int, n as int)),
        r matches Some(p) ==> all_digits(s@.subrange(xi as int, n as int)) && (!p.1 ==> p.0
            == int_val(s@.subrange(xi as int, n as int)) && p.0
            < 10000000000000000000000000000) && (p.1 ==> int_val(s@.subrange(xi as int, n as int))
            >= 1000000000000000000000000000),
{
    let mut ev: u128 = 0;
    let mut ehuge = false;
    let mut j: usize = xi;
    while j < n
        invariant
            xi <= j <= n,
            forall|k: int| xi <= k < j ==> is_digit_char(#[trigger] s@[k]),
            !ehuge ==> ev == int_val(s@.subrange(xi as int, j as int)) && ev
                < 10000000000000000000000000000,
            ehuge ==> int_val(s@.subrange(xi as int, j as int)) >= 1000000000000000000000000000,
        decreases n - j,
    {
        let ghost pre = s@.subrange(xi as int, j as int);
        let c = s.get_char(j);
        let d = match digit_of(c) {
            Some(d) => d,
            None => {
                proof {
                    assert(s@.subrange(xi as int, n as int)[j - xi] == s@[j as int]);
                    assert(!all_digits(s@.subrange(xi as int, n as int)));
                }
                return None;
            },
        };
        let ghost post = s@.subrange(xi as int, j + 1 as int);
        proof {
            assert(post.drop_last() =~= pre);
            assert(post.last() == s@[j as int]);
            assert(all_digits(pre));
            lemma_int_val_nonneg(pre);
            assert(int_val(post) == int_val(pre) * 10 + d);
        }
        if !ehuge {
            if ev >= 1000000000000000000000000000 {
                ehuge = true;
            } else {
                ev = ev * 10 + d as u128;
            }
        }
        j += 1;
    }
    proof {
        assert(s@.subrange(xi as int, n as int) =~= s@.subrange(xi as int, j as int));
    }
    Some((ev, ehuge))
}

/// Accumulates the value of the first `take_n` significand digits, flagging
/// a value past the machine word.
#[verifier::loop_isolation(false)]
fn accumulate_mm(s: &str, pos: usize, dotp: usize, ep: usize, take_n: usize) -> (r: (u64, bool))
    requires
        pos <= dotp <= ep,
        ep <= s@.len(),
        take_n <= sig_digits(s@, pos as int, dotp as int, ep as int).len(),
        all_digits(s@.subrange(pos as int, dotp as int)),
        dotp < ep ==> all_digits(s@.subrange(dotp + 1 as int, ep as int)),
    ensures
        ({
            let d = sig_digits(s@, pos as int, dotp as int, ep as int);
            &&& (!r.1 ==> r.0 == int_val(d.take(take_n as int)))
            &&& (r.1 ==> int_val(d.take(take_n as int)) > u64::MAX)
        }),
{
    let ghost dseq = sig_digits(s@, pos as int, dotp as int, ep as int);
    let ip_len = dotp - pos;
    proof {
        assert forall|k: int| 0 <= k < dseq.len() implies is_digit_char(#[trigger] dseq[k]) by {
            if k < ip_len {
                assert(dseq[k] == s@.subrange(pos as int, dotp as int)[k]);
            } else {
                assert(dseq[k] == s@.subrange(dotp + 1 as int, ep as int)[k - ip_len]);
            }
        }
    }
    let mut acc: u64 = 0;
    let mut over = false;
    let mut j: usize = 0;
    while j < take_n
        invariant
            0 <= j <= take_n,
            !over ==> acc == int_val(dseq.take(j as int)),
            over ==> int_val(dseq.take(j as int)) > u64::MAX,
        decreases take_n - j,
    {
        let ghost pre = dseq.take(j as int);
        let sp = if j < ip_len {
            pos + j
        } else {
            dotp + 1 + (j - ip_len)
        };
        proof {
            if j < ip_len {
                assert(dseq[j as int] == s@.subrange(pos as int, dotp as int)[j as int]);
            } else {
                assert(dseq[j as int] == s@.subrange(dotp + 1 as int, ep as int)[j - ip_len]);
            }
            assert(dseq[j as int] == s@[sp as int]);
        }
        let c = s.get_char(sp);
        let d = match digit_of(c) {
            Some(d) => d,
            None => {
                proof {
                    assert(is_digit_char(dseq[j as int]));
                    assert(false);
                }
                0
            },
        };
        let ghost post = dseq.take(j + 1 as int);
        proof {
            assert(post.drop_last() =~= pre);
            assert(post.last() == dseq[j as int]);
            assert(all_digits(pre));
            lemma_int_val_nonneg(pre);
            assert(int_val(post) == int_val(pre) * 10 + d);
        }
        if !over {
            if acc > (u64::MAX - d) / 10 {
                over = true;
                proof {
                    lemma_fundamental_div_mod(u64::MAX - d, 10);
                    assert(int_val(post) > u64::MAX);
                }
            } else {
                proof {
                    lemma_fundamental_div_mod(u64::MAX - d, 10);
                    assert(acc * 10 + d <= u64::MAX);
                }
                acc = acc * 10 + d;
            }
        } else {
            proof {
                assert(int_val(pre) > u64::MAX);
                assert(int_val(post) > u64::MAX);
            }
        }
        j += 1;
    }
    (acc, over)
}

/// Shifts a positive value up by `shift` decimal places, or reports that the
/// result leaves the machine word.
#[verifier::loop_isolation(false)]
fn shift_up(acc: u64, shift: i128) -> (r: Option<u64>)
    requires
        1 <= acc,
        0 <= shift,
    ensures
        r matches Some(x) ==> x == acc * pow10(shift as nat) && x >= 1,
        r is None ==> acc * pow10(shift as nat) > u64::MAX,
{
    let ghost v = acc as int;
    let mut cur = acc;
    let mut over = false;
    let mut sh: i128 = 0;
    while sh < shift && !over
        invariant
            0 <= sh <= shift,
            !over ==> cur == v * pow10(sh as nat) && cur >= 1,
            over ==> v * pow10(shift as nat) > u64::MAX,
        decreases shift - sh,
    {
        if cur > u64::MAX / 10 {
            over = true;
            proof {
                lemma_fundamental_div_mod(u64::MAX as int, 10);
                assert(cur * 10 > u64::MAX);
                assert(pow10((sh + 1) as nat) == 10 * pow10(sh as nat));
                assert(v * pow10((sh + 1) as nat) == cur * 10) by (nonlinear_arith)
                    requires
                        cur == v * pow10(sh as nat),
                        pow10((sh + 1) as nat) == 10 * pow10(sh as nat),
                ;
                lemma_pow10_mono((sh + 1) as nat, shift as nat);
                assert(v * pow10(shift as nat) >= v * pow10((sh + 1) as nat)) by (nonlinear_arith)
                    requires
                        v >= 1,
                        pow10(shift as nat) >= pow10((sh + 1) as nat),
                ;
            }
        } else {
            proof {
                lemma_fundamental_div_mod(u64::MAX as int, 10);
                assert(cur * 10 <= u64::MAX);
                assert(pow10((sh + 1) as nat) == 10 * pow10(sh as nat));
                assert(v * pow10((sh + 1) as nat) == cur * 10) by (nonlinear_arith)
                    requires
                        cur == v * pow10(sh as nat),
                        pow10((sh + 1) as nat) == 10 * pow10(sh as nat),
                ;
            }
            cur = cur * 10;
        }
        sh += 1;
    }
    if over {
        None
    } else {
        Some(cur)
    }
}

/// The position of the first 'e' or 'E' at or past `pos`, or `n` if none.
#[verifier::loop_isolation(false)]
fn find_first_e(s: &str, pos: usize, n: usize) -> (ep: usize)
    requires
        pos <= n,
        n == s@.len(),
    ensures
        pos <= ep <= n,
        e_pos(s@.subrange(pos as int, n as int)) == ep - pos,
{
    let mut ep: usize = n;
    let mut scan: usize = pos;
    while scan < n
        invariant
            pos <= scan <= n,
            ep == n || (pos <= ep < scan),
            ep == n ==> forall|k: int| pos <= k < scan ==> !(s@[k] == 'e' || s@[k] == 'E'),
            ep < n ==> (s@[ep as int] == 'e' || s@[ep as int] == 'E') && (forall|k: int|
                pos <= k < ep ==> !(s@[k] == 'e' || s@[k] == 'E')),
        decreases n - scan,
    {
        let c = s.get_char(scan);
        if ep == n && (c == 'e' || c == 'E') {
            ep = scan;
        }
        scan += 1;
    }
    proof {
        lemma_e_pos_unique(s@.subrange(pos as int, n as int), ep - pos);
    }
    ep
}

/// The position of the first '.' in `pos..ep`, or `ep` if none.
#[verifier::loop_isolation(false)]
fn find_first_dot(s: &str, pos: usize, ep: usize) -> (dotp: usize)
    requires
        pos <= ep,
        ep <= s@.len(),
    ensures
        pos <= dotp <= ep,
        dot_pos(s@.subrange(pos as int, ep as int)) == dotp - pos,
{
    let mut dotp: usize = ep;
    let mut scan: usize = pos;
    while scan < ep
        invariant
            pos <= scan <= ep,
            dotp == ep || (pos <= dotp < scan),
            dotp == ep ==> forall|k: int| pos <= k < scan ==> s@[k] != '.',
            dotp < ep ==> s@[dotp as int] == '.' && (forall|k: int|
                pos <= k < dotp ==> s@[k] != '.'),
        decreases ep - scan,
    {
        let c = s.get_char(scan);
        if dotp == ep && c == '.' {
            dotp = scan;
        }
        scan += 1;
    }
    proof {
        lemma_dot_pos_unique(s@.subrange(pos as int, ep as int), dotp - pos);
    }
    dotp
}

/// Every significand character but the dot is a digit.
#[verifier::loop_isolation(false)]
fn digits_around_dot(s: &str, pos: usize, dotp: usize, ep: usize) -> (ok: bool)
    requires
        pos <= dotp <= ep,
        ep <= s@.len(),
    ensures
        ok ==> all_digits(s@.subrange(pos as int, dotp as int)) && (dotp < ep ==> all_digits(
            s@.subrange(dotp + 1 as int, ep as int),
        )),
        !ok ==> !(all_digits(s@.subrange(pos as int, dotp as int)) && (dotp < ep ==> all_digits(
            s@.subrange(dotp + 1 as int, ep as int),
        ))),
{
    let mut vi: usize = pos;
    while vi < ep
        invariant
            pos <= vi <= ep,
            forall|k: int| pos <= k < vi && k != dotp ==> is_digit_char(#[trigger] s@[k]),
        decreases ep - vi,
    {
        if vi != dotp {
            let c = s.get_char(vi);
            if digit_of(c).is_none() {
                proof {
                    if vi < dotp {
                        assert(s@.subrange(pos as int, dotp as int)[vi - pos] == s@[vi as int]);
                        assert(!all_digits(s@.subrange(pos as int, dotp as int)));
                    } else {
                        assert(s@.subrange(dotp + 1 as int, ep as int)[vi - dotp - 1]
                            == s@[vi as int]);
                        assert(!all_digits(s@.subrange(dotp + 1 as int, ep as int)));
                    }
                }
                return false;
            }
        }
        vi += 1;
    }
    proof {
        assert forall|k: int| 0 <= k < dotp - pos implies is_digit_char(
            #[trigger] s@.subrange(pos as int, dotp as int)[k],
        ) by {
            assert(s@.subrange(pos as int, dotp as int)[k] == s@[pos + k]);
        }
        if dotp < ep {
            assert forall|k: int| 0 <= k < ep - dotp - 1 implies is_digit_char(
                #[trigger] s@.subrange(dotp + 1 as int, ep as int)[k],
            ) by {
                assert(s@.subrange(dotp + 1 as int, ep as int)[k] == s@[dotp + 1 + k]);
            }
        }
    }
    true
}

/// Parses one raw entry as a tape length in whole millimeters. The grammar
/// is an optional '+', a decimal significand, and an optional signed
/// 'e'/'E' exponent; the value rounds half up below the millimeter.
#[verifier::loop_isolation(false)]
#[verifier::rlimit(100)]
pub fn parse_tape(s: &str) -> (r: Option<u64>)
    ensures
        r == spec_parse_mm(s@),
{
    let n = s.unicode_len();
    let mut pos: usize = 0;
    if n > 0 && s.get_char(0) == '+' {
        pos = 1;
    }
    let ghost t = body_of(s@);
    proof {
        assert(t =~= s@.subrange(pos as int, n as int));
    }
    if pos == n {
        proof {
            assert(mantissa(t).len() == 0);
            assert(int_part(mantissa(t)).len() == 0);
            assert(frac_part(mantissa(t)).len() == 0);
        }
        return None;
    }
    let ep = find_first_e(s, pos, n);
    let ghost m = mantissa(t);
    proof {
        assert(m =~= s@.subrange(pos as int, ep as int));
    }
    let dotp = find_first_dot(s, pos, ep);
    let ghost ip = int_part(m);
    let ghost fp = frac_part(m);
    proof {
        assert(ip =~= s@.subrange(pos as int, dotp as int));
        if dotp < ep {
            assert(fp =~= s@.subrange(dotp + 1 as int, ep as int));
        } else {
            assert(fp =~= Seq::<char>::empty());
        }
    }
    // Every significand character but the dot must be a digit.
    if !digits_around_dot(s, pos, dotp, ep) {
        proof {
            assert(!(all_digits(ip) && all_digits(fp)));
        }
        return None;
    }
    let ip_len = dotp - pos;
    let fp_len = if dotp < ep {
        ep - dotp - 1
    } else {
        0
    };
    proof {
        assert(ip.len() == ip_len);
        assert(fp.len() == fp_len);
        assert(all_digits(ip));
        assert(all_digits(fp));
    }
    if ip_len + fp_len == 0 {
        return None;
    }
    // Read the exponent.
    let mut exp_neg = false;
    let mut ev: u128 = 0;
    let mut ehuge = false;
    let ghost huge: int = 1000000000000000000000000000;
    if ep < n {
        let mut xi = ep + 1;
        if xi < n {
            let c = s.get_char(xi);
            if c == '+' {
                xi += 1;
            } else if c == '-' {
                exp_neg = true;
                xi += 1;
            }
        }
        let ghost xs = exp_part(t);
        let ghost ds = exp_digits(xs);
        proof {
            assert(xs =~= s@.subrange(ep + 1 as int, n as int));
            assert(ds =~= s@.subrange(xi as int, n as int));
            assert(exp_of(t) == if exp_neg {
                -int_val(ds)
            } else {
                int_val(ds)
            });
        }
        if xi == n {
            proof {
                assert(ds.len() == 0);
                assert(!valid_exp(t));
            }
            return None;
        }
        match parse_exp_digits(s, xi, n) {
            Some((v, h)) => {
                ev = v;
                ehuge = h;
            },
            None => {
                proof {
                    assert(!all_digits(ds));
                    assert(!valid_exp(t));
                }
                return None;
            },
        }
        proof {
            assert(all_digits(ds));
            lemma_int_val_nonneg(ds);
        }
    }
    let ghost e = exp_of(t);
    proof {
        assert(valid_entry(t));
    }
    // The significand's digits, with the millimeter point placed by the
    // exponent.
    let ghost dseq = sig_digits(s@, pos as int, dotp as int, ep as int);
    let dlen = ip_len + fp_len;
    proof {
        assert(dseq =~= ip + fp);
        assert(dseq.len() == dlen);
        assert(all_digits(dseq)) by {
            assert forall|k: int| 0 <= k < dseq.len() implies is_digit_char(
                #[trigger] dseq[k],
            ) by {
                if k < ip_len {
                    assert(dseq[k] == ip[k]);
                } else {
                    assert(dseq[k] == fp[k - ip_len]);
                }
            }
        }
        lemma_int_val_nonneg(dseq);
        assert(usize::MAX <= u64::MAX);
    }
    let ghost p = ip.len() + e + 3;
    if ehuge {
        if exp_neg {
            proof {
                assert(e <= -huge);
                assert(p < 0);
                assert(mm_value(t) == 0);
            }
            return None;
        } else {
            proof {
                assert(e >= huge);
                assert(p - dseq.len() >= 20);
                if int_val(dseq) == 0 {
                    assert(int_val(dseq) * pow10((p - dseq.len()) as nat) == 0)
                        by (nonlinear_arith)
                        requires
                            int_val(dseq) == 0,
                    ;
                    assert(mm_value(t) == 0);
                } else {
                    lemma_shift_overflows(int_val(dseq), (p - dseq.len()) as nat);
                    assert(mm_value(t) > u64::MAX);
                }
            }
            return None;
        }
    }
    let pi: i128 = if exp_neg {
        ip_len as i128 + 3 - ev as i128
    } else {
        ip_len as i128 + 3 + ev as i128
    };
    proof {
        assert(pi == p);
    }
    if pi < 0 {
        proof {
            assert(mm_value(t) == 0);
        }
        return None;
    }
    // Accumulate the whole-millimeter digits.
    let take_n: usize = if pi >= dlen as i128 {
        dlen
    } else {
        pi as usize
    };
    let (acc, over) = accumulate_mm(s, pos, dotp, ep, take_n);
    if pi >= dlen as i128 {
        // No digits below the millimeter: shift the value up.
        proof {
            assert(dseq.take(dlen as int) =~= dseq);
        }
        if over {
            proof {
                lemma_pow10_pos((p - dseq.len()) as nat);
                assert(int_val(dseq) * pow10((p - dseq.len()) as nat) >= int_val(dseq))
                    by (nonlinear_arith)
                    requires
                        int_val(dseq) >= 0,
                        pow10((p - dseq.len()) as nat) >= 1,
                ;
                assert(mm_value(t) > u64::MAX);
            }
            return None;
        }
        if acc == 0 {
            proof {
                assert(int_val(dseq) * pow10((p - dseq.len()) as nat) == 0) by (nonlinear_arith)
                    requires
                        int_val(dseq) == 0,
                ;
                assert(mm_value(t) == 0);
            }
            return None;
        }
        match shift_up(acc, pi - dlen as i128) {
            Some(x) => {
                proof {
                    assert(mm_value(t) == x);
                }
                Some(x)
            },
            None => {
                proof {
                    assert(mm_value(t) > u64::MAX);
                }
                None
            },
        }
    } else {
        // A digit sits just below the millimeter: round half up on it.
        let sp = if take_n < ip_len {
            pos + take_n
        } else {
            dotp + 1 + (take_n - ip_len)
        };
        proof {
            if take_n < ip_len {
                assert(dseq[take_n as int] == ip[take_n as int]);
            } else {
                assert(dseq[take_n as int] == fp[take_n - ip_len]);
            }
            assert(dseq[take_n as int] == s@[sp as int]);
        }
        let c = s.get_char(sp);
        let rd = match digit_of(c) {
            Some(d) => d,
            None => {
                proof {
                    assert(is_digit_char(dseq[take_n as int]));
                    assert(false);
                }
                0
            },
        };
        proof {
            assert(digit_val(dseq[p]) == rd);
        }
        if over {
            proof {
                assert(mm_value(t) > u64::MAX);
            }
            return None;
        }
        let mm: u64 = if rd >= 5 {
            if acc == u64::MAX {
                proof {
                    assert(mm_value(t) > u64::MAX);
                }
                return None;
            }
            acc + 1
        } else {
            acc
        };
        proof {
            assert(mm == mm_value(t));
        }
        if mm == 0 {
            return None;
        }
        Some(mm)
    }
}

/// Parses every raw entry, dropping the entries that describe no tape length
/// and keeping input order. The validated set is a function of the raw
/// entries alone.
#[verifier::loop_isolation(false)]
pub fn parse_tapes(entries: &Vec<String>) -> (r: Vec<u64>)
    ensures
        r@ == spec_parse_all(entries.deep_view()),
{
    let ghost all = entries.deep_view();
    proof {
        assert(all.len() == entries@.len());
    }
    let mut out: Vec<u64> = Vec::new();
    let mut i: usize = 0;
    while i < entries.len()
        invariant
            i <= entries@.len(),
            out@ == spec_parse_all(all.take(i as int)),
        decreases entries@.len() - i,
    {
        let ghost pre = all.take(i as int);
        let ghost post = all.take(i + 1 as int);
        proof {
            assert(post.drop_last() =~= pre);
            assert(post.last() == all[i as int]);
            assert(all[i as int] == entries@[i as int]@);
        }
        match parse_tape(entries[i].as_str()) {
            Some(v) => out.push(v),
            None => {},
        }
        i += 1;
    }
    proof {
        assert(all.take(entries@.len() as int) =~= all);
    }
    out
}

} // verus!
