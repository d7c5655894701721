//! Decimal notation for the integers the interpreter prints: the
//! specification of decimal text and a verified renderer.

use vstd::prelude::*;

verus! {

/// The character for one decimal digit value.
pub open spec fn digit_char(d: nat) -> char {
    if d == 0 {
        '0'
    } else if d == 1 {
        '1'
    } else if d == 2 {
        '2'
    } else if d == 3 {
        '3'
    } else if d == 4 {
        '4'
    } else if d == 5 {
        '5'
    } else if d == 6 {
        '6'
    } else if d == 7 {
        '7'
    } else if d == 8 {
        '8'
    } else {
        '9'
    }
}

/// The decimal text of a natural number, without sign or leading zeros.
pub open spec fn dec_nat(n: nat) -> Seq<char>
    decreases n,
{
    if n < 10 {
        seq![digit_char(n)]
    } else {
        dec_nat(n / 10) + seq![digit_char(n % 10)]
    }
}

/// The decimal text of a 64-bit signed value, with a leading '-' when negative.
pub open spec fn dec_i64(v: i64) -> Seq<char> {
    if v < 0 {
        seq!['-'] + dec_nat((-(v as int)) as nat)
    } else {
        dec_nat(v as nat)
    }
}

/// The digit character for a value below ten.
fn digit_char_exec(d: u64) -> (c: char)
    requires
        d < 10,
    ensures
        c == digit_char(d as nat),
{
    match d {
        0 => '0',
        1 => '1',
        2 => '2',
        3 => '3',
        4 => '4',
        5 => '5',
        6 => '6',
        7 => '7',
        8 => '8',
        _ => '9',
    }
}

/// Appends the decimal text of `n` to `out`.
pub fn push_dec_u64(out: &mut Vec<char>, n: u64)
    ensures
        final(out)@ == old(out)@ + dec_nat(n as nat),
{
    let mut digits: Vec<char> = Vec::new();
    let mut m: u64 = n;
    if m == 0 {
        digits.push('0');
        proof {
            assert(dec_nat(n as nat) =~= digits@);
        }
    } else {
        proof {
            assert(dec_nat(n as nat) =~= dec_nat(m as nat) + digits@);
        }
    }
    while m > 0
        invariant
            dec_nat(n as nat) == if m > 0 {
                dec_nat(m as nat) + digits@
            } else {
                digits@
            },
        decreases m,
    {
        let ghost m0 = m as nat;
        let ghost digits0 = digits@;
        let d: u64 = m % 10;
        let c = digit_char_exec(d);
        digits.insert(0, c);
        m = m / 10;
        proof {
            assert(digits@ =~= seq![digit_char(m0 % 10)] + digits0);
            if m > 0 {
                assert(dec_nat(m0) == dec_nat(m0 / 10) + seq![digit_char(m0 % 10)]);
                assert(m as nat == m0 / 10);
                assert(dec_nat(n as nat) =~= dec_nat(m as nat) + digits@);
            } else {
                assert(dec_nat(m0) == seq![digit_char(m0)]);
                assert(dec_nat(n as nat) =~= digits@);
            }
        }
    }
    let mut i: usize = 0;
    while i < digits.len()
        invariant
            i <= digits.len(),
            out@ == old(out)@ + digits@.subrange(0, i as int),
        decreases digits.len() - i,
    {
        out.push(digits[i]);
        i = i + 1;
        proof {
            assert(out@ =~= old(out)@ + digits@.subrange(0, i as int));
        }
    }
    proof {
        assert(digits@.subrange(0, digits@.len() as int) =~= digits@);
    }
}

/// Appends the decimal text of `v` to `out`, with a '-' sign when negative.
pub fn push_dec_i64(out: &mut Vec<char>, v: i64)
    ensures
        final(out)@ == old(out)@ + dec_i64(v),
{
    if v < 0 {
        out.push('-');
        let magnitude: u64 = if v == i64::MIN {
            9223372036854775808u64
        } else {
            (-v) as u64
        };
        push_dec_u64(out, magnitude);
        proof {
            assert(out@ =~= old(out)@ + dec_i64(v));
        }
    } else {
        push_dec_u64(out, v as u64);
    }
}

} // verus!
