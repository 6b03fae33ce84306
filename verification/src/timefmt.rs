//! Human-readable rendering of durations.
//!
//! A duration in nanoseconds is rendered with the largest unit in which it
//! measures at least 0.1 — seconds, milliseconds or microseconds — and as
//! plain nanoseconds below that. The value is printed as its whole part
//! and, when the remainder is not zero, a fractional part with trailing
//! zeros trimmed: `1500000000` becomes `1.5 s`, `10000000` becomes `10 ms`,
//! `12345` becomes `12.345 us`, `42` becomes `42 ns`.
//!
//! The rendering is specified to the character by [`spec_format_duration`].

use vstd::prelude::*;

verus! {

/// The character of one decimal digit.
pub open spec fn digit_char(d: int) -> char {
    if d == 0 {
        '0'
    } else if d == 1 {
        '1'
    } else if d == 2 {
        '2'
    } else if d == 3 {
        '3'
    } else if d == 4 {
        '4'
    } else if d == 5 {
        '5'
    } else if d == 6 {
        '6'
    } else if d == 7 {
        '7'
    } else if d == 8 {
        '8'
    } else {
        '9'
    }
}

/// The decimal digits of `n`, most significant first.
pub open spec fn dec_digits(n: int) -> Seq<char>
    decreases n,
{
    if n < 10 {
        seq![digit_char(n)]
    } else {
        dec_digits(n / 10).push(digit_char(n % 10))
    }
}

/// `p` is a power of ten.
pub open spec fn is_pow10(p: int) -> bool
    decreases p,
{
    if p <= 0 {
        false
    } else if p == 1 {
        true
    } else {
        p % 10 == 0 && is_pow10(p / 10)
    }
}

/// The fractional digits of `frac` read off place by place, starting at
/// place value `place`, with trailing zeros trimmed. `frac` is positive and
/// below ten times `place`.
pub open spec fn frac_digits(frac: int, place: int) -> Seq<char>
    decreases place,
{
    if place <= 0 {
        Seq::empty()
    } else {
        let d = frac / place;
        let rest = frac % place;
        if rest == 0 {
            seq![digit_char(d)]
        } else {
            seq![digit_char(d)] + frac_digits(rest, place / 10)
        }
    }
}

/// `n` units of `scale` nanoseconds each: the whole part, then a trimmed
/// fractional part when the remainder is not zero.
pub open spec fn scaled_digits(n: int, scale: int) -> Seq<char> {
    if n % scale == 0 {
        dec_digits(n / scale)
    } else {
        dec_digits(n / scale) + seq!['.'] + frac_digits(n % scale, scale / 10)
    }
}

/// What [`format_duration`] renders, character by character.
pub open spec fn spec_format_duration(nanos: u64) -> Seq<char> {
    if nanos >= 100_000_000 {
        scaled_digits(nanos as int, 1_000_000_000) + seq![' ', 's']
    } else if nanos >= 100_000 {
        scaled_digits(nanos as int, 1_000_000) + seq![' ', 'm', 's']
    } else if nanos >= 100 {
        scaled_digits(nanos as int, 1_000) + seq![' ', 'u', 's']
    } else {
        dec_digits(nanos as int) + seq![' ', 'n', 's']
    }
}

/// Relies on `String::push`: appends exactly the given character.
#[verifier::external_body]
fn push_char(out: &mut String, c: char)
    ensures
        final(out)@ == old(out)@.push(c),
{
    out.push(c);
}

/// The character of one digit.
fn digit(d: u64) -> (c: char)
    requires
        d < 10,
    ensures
        c == digit_char(d as int),
{
    if d == 0 {
        '0'
    } else if d == 1 {
        '1'
    } else if d == 2 {
        '2'
    } else if d == 3 {
        '3'
    } else if d == 4 {
        '4'
    } else if d == 5 {
        '5'
    } else if d == 6 {
        '6'
    } else if d == 7 {
        '7'
    } else if d == 8 {
        '8'
    } else {
        '9'
    }
}

/// Append the decimal digits of `n`.
fn push_digits(out: &mut String, n: u64)
    ensures
        final(out)@ == old(out)@ + dec_digits(n as int),
    decreases n,
{
    if n < 10 {
        push_char(out, digit(n));
        proof {
            assert(final(out)@ =~= old(out)@ + dec_digits(n as int));
        }
    } else {
        push_digits(out, n / 10);
        push_char(out, digit(n % 10));
        proof {
            assert(final(out)@ =~= old(out)@ + dec_digits(n as int));
        }
    }
}

/// Append the fractional digits of `frac`, place values from `place` down,
/// trailing zeros trimmed.
fn push_frac(out: &mut String, frac: u64, place: u64)
    requires
        is_pow10(place as int),
        0 < frac < place * 10,
    ensures
        final(out)@ == old(out)@ + frac_digits(frac as int, place as int),
    decreases place,
{
    let d = frac / place;
    let rest = frac % place;
    proof {
        assert((frac as int) / (place as int) < 10) by (nonlinear_arith)
            requires
                0 < place,
                frac < place * 10,
        ;
    }
    push_char(out, digit(d));
    if rest == 0 {
        proof {
            assert(final(out)@ =~= old(out)@ + frac_digits(frac as int, place as int));
        }
    } else {
        proof {
            // `place` is a power of ten above one here, since a positive
            // remainder rules out place == 1
            assert(place != 1);
            assert(place as int % 10 == 0 && is_pow10(place as int / 10));
            assert(rest < (place / 10) * 10) by (nonlinear_arith)
                requires
                    rest < place,
                    place as int % 10 == 0,
                    place / 10 == place as int / 10,
            ;
        }
        push_frac(out, rest, place / 10);
        proof {
            assert(final(out)@ =~= old(out)@ + frac_digits(frac as int, place as int));
        }
    }
}

/// Append the scaled rendering of `n` nanoseconds in units of `scale`.
fn push_scaled(out: &mut String, n: u64, scale: u64)
    requires
        is_pow10(scale as int),
        scale >= 10,
    ensures
        final(out)@ == old(out)@ + scaled_digits(n as int, scale as int),
{
    let whole = n / scale;
    let frac = n % scale;
    push_digits(out, whole);
    if frac != 0 {
        push_char(out, '.');
        proof {
            assert(frac < (scale / 10) * 10) by (nonlinear_arith)
                requires
                    frac < scale,
                    scale as int % 10 == 0,
                    scale / 10 == scale as int / 10,
            ;
            assert(is_pow10(scale as int / 10));
        }
        push_frac(out, frac, scale / 10);
    }
    proof {
        assert(final(out)@ =~= old(out)@ + scaled_digits(n as int, scale as int));
    }
}

/// Render a duration of `nanos` nanoseconds with the largest unit in which
/// it measures at least 0.1, the fractional part trimmed of trailing zeros:
/// `1.5 s`, `10 ms`, `12.345 us`, `42 ns`.
pub fn format_duration(nanos: u64) -> (r: String)
    ensures
        r@ == spec_format_duration(nanos),
{
    let mut out = String::new();
    if nanos >= 100_000_000 {
        proof {
            assert(is_pow10(1_000_000_000int)) by {
                reveal_with_fuel(is_pow10, 11);
            }
        }
        push_scaled(&mut out, nanos, 1_000_000_000);
        push_char(&mut out, ' ');
        push_char(&mut out, 's');
    } else if nanos >= 100_000 {
        proof {
            assert(is_pow10(1_000_000int)) by {
                reveal_with_fuel(is_pow10, 8);
            }
        }
        push_scaled(&mut out, nanos, 1_000_000);
        push_char(&mut out, ' ');
        push_char(&mut out, 'm');
        push_char(&mut out, 's');
    } else if nanos >= 100 {
        proof {
            assert(is_pow10(1_000int)) by {
                reveal_with_fuel(is_pow10, 5);
            }
        }
        push_scaled(&mut out, nanos, 1_000);
        push_char(&mut out, ' ');
        push_char(&mut out, 'u');
        push_char(&mut out, 's');
    } else {
        push_digits(&mut out, nanos);
        push_char(&mut out, ' ');
        push_char(&mut out, 'n');
        push_char(&mut out, 's');
    }
    proof {
        assert(out@ =~= spec_format_duration(nanos));
    }
    out
}

} // verus!
