use vstd::prelude::*;

verus! {

/// The decimal digit character for a value in 0..10.
pub open spec fn digit_char(d: int) -> char {
    if d == 0 {
        '0'
    } else if d == 1 {
        '1'
    } else if d == 2 {
        '2'
    } else if d == 3 {
        '3'
    } else if d == 4 {
        '4'
    } else if d == 5 {
        '5'
    } else if d == 6 {
        '6'
    } else if d == 7 {
        '7'
    } else if d == 8 {
        '8'
    } else {
        '9'
    }
}

/// Decimal digit characters of a non-negative integer, most significant first.
pub open spec fn spec_digits(n: int) -> Seq<char>
    recommends
        n >= 0,
    decreases n,
{
    if n < 10 {
        seq![digit_char(n)]
    } else {
        spec_digits(n / 10).push(digit_char(n % 10))
    }
}

/// Text of a length given in whole millimeters, printed in meters with as few
/// fractional digits as the value needs ("300", "300.1", "300.25").
pub open spec fn spec_fmt_mm(n: int) -> Seq<char>
    recommends
        n >= 0,
{
    let whole = n / 1000;
    let frac = n % 1000;
    if frac == 0 {
        spec_digits(whole)
    } else if frac % 100 == 0 {
        spec_digits(whole) + seq!['.', digit_char(frac / 100)]
    } else if frac % 10 == 0 {
        spec_digits(whole) + seq!['.', digit_char(frac / 100), digit_char((frac / 10) % 10)]
    } else {
        spec_digits(whole) + seq![
            '.',
            digit_char(frac / 100),
            digit_char((frac / 10) % 10),
            digit_char(frac % 10),
        ]
    }
}

/// Text of a length in millimeters, printed in meters with at least one
/// fractional digit ("600.0", "300.1"), as a listing of the inputs shows them.
pub open spec fn spec_fmt_mm_listed(n: int) -> Seq<char>
    recommends
        n >= 0,
{
    if n % 1000 == 0 {
        spec_digits(n / 1000) + seq!['.', '0']
    } else {
        spec_fmt_mm(n)
    }
}

/// Text of a value given in tenths of a meter, printed with exactly one
/// fractional digit ("961.0").
pub open spec fn spec_fmt_tenths(t: int) -> Seq<char>
    recommends
        t >= 0,
{
    spec_digits(t / 10) + seq!['.', digit_char(t % 10)]
}

/// One decimal digit as a string slice.
fn digit_str(d: u128) -> (s: &'static str)
    requires
        d < 10,
    ensures
        s@ == seq![digit_char(d as int)],
{
    let s: &'static str = if d == 0 {
        "0"
    } else if d == 1 {
        "1"
    } else if d == 2 {
        "2"
    } else if d == 3 {
        "3"
    } else if d == 4 {
        "4"
    } else if d == 5 {
        "5"
    } else if d == 6 {
        "6"
    } else if d == 7 {
        "7"
    } else if d == 8 {
        "8"
    } else {
        "9"
    };
    proof {
        reveal_strlit("0");
        reveal_strlit("1");
        reveal_strlit("2");
        reveal_strlit("3");
        reveal_strlit("4");
        reveal_strlit("5");
        reveal_strlit("6");
        reveal_strlit("7");
        reveal_strlit("8");
        reveal_strlit("9");
        assert(s@ =~= seq![digit_char(d as int)]);
    }
    s
}

/// Appends the decimal digits of `n` to `out`.
pub fn push_digits(n: u128, out: &mut String)
    ensures
        final(out)@ == old(out)@ + spec_digits(n as int),
    decreases n,
{
    if n >= 10 {
        push_digits(n / 10, out);
    }
    let ds = digit_str(n % 10);
    out.append(ds);
    proof {
        assert(final(out)@ =~= old(out)@ + spec_digits(n as int));
    }
}

/// Appends `spec_fmt_mm(n)` to `out`.
pub fn push_len_mm(n: u64, out: &mut String)
    ensures
        final(out)@ == old(out)@ + spec_fmt_mm(n as int),
{
    push_digits((n / 1000) as u128, out);
    let frac = n % 1000;
    if frac != 0 {
        proof {
            reveal_strlit(".");
        }
        out.append(".");
        push_digits((frac / 100) as u128, out);
        if frac % 100 != 0 {
            push_digits(((frac / 10) % 10) as u128, out);
            if frac % 10 != 0 {
                push_digits((frac % 10) as u128, out);
            }
        }
        proof {
            assert(final(out)@ =~= old(out)@ + spec_fmt_mm(n as int));
        }
    }
}

/// Appends `spec_fmt_mm_listed(n)` to `out`.
pub fn push_len_mm_listed(n: u64, out: &mut String)
    ensures
        final(out)@ == old(out)@ + spec_fmt_mm_listed(n as int),
{
    if n % 1000 == 0 {
        push_digits((n / 1000) as u128, out);
        proof {
            reveal_strlit(".0");
        }
        out.append(".0");
        proof {
            assert(final(out)@ =~= old(out)@ + spec_fmt_mm_listed(n as int));
        }
    } else {
        push_len_mm(n, out);
    }
}

/// Appends `spec_fmt_tenths(t)` to `out`.
pub fn push_tenths(t: u128, out: &mut String)
    ensures
        final(out)@ == old(out)@ + spec_fmt_tenths(t as int),
{
    push_digits(t / 10, out);
    proof {
        reveal_strlit(".");
    }
    out.append(".");
    push_digits(t % 10, out);
    proof {
        assert(final(out)@ =~= old(out)@ + spec_fmt_tenths(t as int));
    }
}

} // verus!
