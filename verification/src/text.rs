//! Decimal rendering of integers, as the error messages print them.

use vstd::prelude::*;

verus! {

/// The character of a decimal digit.
pub open spec fn digit_char(d: nat) -> char {
    (d + 48) as char
}

/// Decimal notation of a natural number, most significant digit first.
pub open spec fn decimal(n: nat) -> Seq<char>
    decreases n,
{
    if n < 10 {
        seq![digit_char(n)]
    } else {
        decimal(n / 10).push(digit_char(n % 10))
    }
}

/// 10 to the power `w`.
pub open spec fn pow10(w: nat) -> nat
    decreases w,
{
    if w == 0 {
        1
    } else {
        10 * pow10((w - 1) as nat)
    }
}

/// The last `w` decimal digits of `f`, leading zeros included.
pub open spec fn padded_digits(f: nat, w: nat) -> Seq<char>
    decreases w,
{
    if w == 0 {
        seq![]
    } else {
        padded_digits(f / 10, (w - 1) as nat).push(digit_char(f % 10))
    }
}

/// A fraction of `w` digits with its trailing zeros dropped: `(f, w)` with
/// `f` no longer divisible by 10 (or nothing left to drop).
pub open spec fn strip_zeros(f: nat, w: nat) -> (nat, nat)
    decreases w,
{
    if w > 0 && f != 0 && f % 10 == 0 {
        strip_zeros(f / 10, (w - 1) as nat)
    } else {
        (f, w)
    }
}

/// Shortest decimal notation of the fixed-point value `v / 10^w`:
/// integer part, then a point and the fraction only where the fraction is
/// not zero, without trailing zeros (1618 at scale 3 reads "1.618",
/// 500 reads "0.5", 3000 reads "3").
pub open spec fn fixed_point(v: nat, w: nat) -> Seq<char> {
    let int_part = v / pow10(w);
    let frac = v % pow10(w);
    if frac == 0 {
        decimal(int_part)
    } else {
        let (f, k) = strip_zeros(frac, w);
        decimal(int_part) + seq!['.'] + padded_digits(f, k)
    }
}

proof fn lemma_pow10_positive(w: nat)
    ensures
        pow10(w) >= 1,
    decreases w,
{
    if w > 0 {
        lemma_pow10_positive((w - 1) as nat);
    }
}

/// Appends one decimal digit.
fn push_digit(s: &mut String, d: u64)
    requires
        d < 10,
    ensures
        final(s)@ == old(s)@.push(digit_char(d as nat)),
{
    let table: &str = "0123456789";
    proof {
        reveal_strlit("0123456789");
    }
    let piece = table.substring_ascii(d as usize, d as usize + 1);
    assert(piece@ =~= seq![digit_char(d as nat)]);
    s.append(piece);
}

/// Appends the decimal notation of `n`.
pub fn push_decimal(s: &mut String, n: u64)
    ensures
        final(s)@ == old(s)@ + decimal(n as nat),
    decreases n,
{
    if n >= 10 {
        push_decimal(s, n / 10);
    }
    push_digit(s, n % 10);
    assert(final(s)@ =~= old(s)@ + decimal(n as nat)) by {
        if n < 10 {
            assert(decimal(n as nat) == seq![digit_char(n as nat)]);
        }
    }
}

/// Appends the last `w` digits of `f`, leading zeros included.
fn push_padded(s: &mut String, f: u64, w: u32)
    ensures
        final(s)@ == old(s)@ + padded_digits(f as nat, w as nat),
    decreases w,
{
    if w > 0 {
        push_padded(s, f / 10, w - 1);
        push_digit(s, f % 10);
        assert(final(s)@ =~= old(s)@ + padded_digits(f as nat, w as nat));
    } else {
        assert(final(s)@ =~= old(s)@ + padded_digits(f as nat, w as nat));
    }
}

/// Appends the shortest decimal notation of the fixed-point value `v / 10^w`.
pub fn push_fixed_point(s: &mut String, v: u64, w: u32)
    requires
        w <= 3,
    ensures
        final(s)@ == old(s)@ + fixed_point(v as nat, w as nat),
{
    proof {
        reveal_with_fuel(pow10, 4);
    }
    let scale: u64 = if w == 0 {
        1
    } else if w == 1 {
        10
    } else if w == 2 {
        100
    } else {
        1000
    };
    assert(scale == pow10(w as nat));
    let int_part = v / scale;
    let frac = v % scale;
    push_decimal(s, int_part);
    if frac != 0 {
        let dot: &str = ".";
        proof {
            reveal_strlit(".");
        }
        s.append(dot);
        let mut f = frac;
        let mut k = w;
        while k > 0 && f % 10 == 0
            invariant
                f != 0,
                strip_zeros(f as nat, k as nat) == strip_zeros(frac as nat, w as nat),
            decreases k,
        {
            f = f / 10;
            k = k - 1;
        }
        assert(strip_zeros(f as nat, k as nat) == (f as nat, k as nat));
        push_padded(s, f, k);
    }
    assert(final(s)@ =~= old(s)@ + fixed_point(v as nat, w as nat));
}

} // verus!
