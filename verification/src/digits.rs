//! Decimal text: parsing non-negative integers (as `str::parse::<u32>` does,
//! with an optional leading `+`), and rendering an integer back to digits for
//! the deterministic names of reserved backfill tokens.

use vstd::prelude::*;

verus! {

/// True for the ASCII bytes `'0'` through `'9'`.
pub open spec fn is_digit(b: u8) -> bool {
    48 <= b <= 57
}

/// Numeric value of a single ASCII digit byte.
pub open spec fn digit_val(b: u8) -> nat
    recommends
        is_digit(b),
{
    (b - 48) as nat
}

/// True when every byte of `s` is an ASCII digit.
pub open spec fn all_digits(s: Seq<u8>) -> bool {
    forall|i: int| 0 <= i < s.len() ==> is_digit(#[trigger] s[i])
}

/// The value of a digit string read in base 10.
pub open spec fn digits_value(s: Seq<u8>) -> nat
    decreases s.len(),
{
    if s.len() == 0 {
        0
    } else {
        digits_value(s.drop_last()) * 10 + digit_val(s.last())
    }
}

/// The digit part of an integer literal: an optional leading `+` is dropped.
pub open spec fn unsigned_body(s: Seq<u8>) -> Seq<u8> {
    if s.len() > 0 && s[0] == 43 {
        s.drop_first()
    } else {
        s
    }
}

/// What `str::parse::<u32>` accepts of a byte string: an optional `+`, then
/// one or more digits, with a value that fits in the rank type.
pub open spec fn parse_u32_spec(s: Seq<u8>) -> Option<u32> {
    let d = unsigned_body(s);
    if d.len() > 0 && all_digits(d) && digits_value(d) <= u32::MAX {
        Some(digits_value(d) as u32)
    } else {
        None
    }
}

/// Extending a digit string can only grow its value.
proof fn lemma_digits_value_take_grows(s: Seq<u8>, i: int)
    requires
        0 <= i <= s.len(),
    ensures
        digits_value(s.take(i)) <= digits_value(s),
    decreases s.len() - i,
{
    if i < s.len() {
        let t = s.take(i + 1);
        assert(t.drop_last() =~= s.take(i));
        assert(digits_value(s.take(i)) * 10 + digit_val(t.last()) >= digits_value(s.take(i)))
            by {
            assert(digits_value(s.take(i)) * 10 == digits_value(s.take(i)) * 9 + digits_value(
                s.take(i),
            ));
        }
        lemma_digits_value_take_grows(s, i + 1);
        assert(s.take(s.len() as int) =~= s);
    } else {
        assert(s.take(i) =~= s);
    }
}

/// Parse a decimal integer exactly as `str::parse::<u32>` would.
pub fn parse_u32(s: &[u8]) -> (r: Option<u32>)
    ensures
        r == parse_u32_spec(s@),
{
    let start: usize = if s.len() > 0 && s[0] == 43 {
        1
    } else {
        0
    };
    let ghost d = unsigned_body(s@);
    assert(d =~= s@.skip(start as int));
    if s.len() == start {
        return None;
    }
    let mut acc: u32 = 0;
    let mut i: usize = start;
    while i < s.len()
        invariant
            start <= i <= s.len(),
            d == unsigned_body(s@),
            d =~= s@.skip(start as int),
            all_digits(d.take(i - start)),
            digits_value(d.take(i - start)) == acc,
        decreases s.len() - i,
    {
        let b = s[i];
        if b < 48 || b > 57 {
            assert(d[i - start] == s@[i as int]);
            assert(!all_digits(d));
            return None;
        }
        let dv: u32 = (b - 48) as u32;
        if acc > (u32::MAX - dv) / 10 {
            proof {
                let p = d.take(i - start + 1);
                assert(p.drop_last() =~= d.take(i - start));
                assert(digits_value(p) == acc * 10 + dv);
                assert(acc * 10 + dv > u32::MAX) by {
                    assert(acc >= (u32::MAX - dv) / 10 + 1);
                    assert(((u32::MAX - dv) / 10 + 1) * 10 >= u32::MAX - dv + 1) by {
                        let q = (u32::MAX - dv) / 10 as int;
                        assert(u32::MAX - dv == q * 10 + (u32::MAX - dv) % 10);
                    }
                    assert(acc * 10 >= ((u32::MAX - dv) / 10 + 1) * 10) by (nonlinear_arith)
                        requires
                            acc >= (u32::MAX - dv) / 10 + 1,
                    ;
                }
                lemma_digits_value_take_grows(d, i - start + 1);
                assert(digits_value(d) > u32::MAX);
            }
            return None;
        }
        proof {
            let p = d.take(i - start + 1);
            assert(p.drop_last() =~= d.take(i - start));
            assert(p.last() == d[i - start]);
        }
        acc = acc * 10 + dv;
        i = i + 1;
    }
    proof {
        assert(d.take(s@.len() - start) =~= d);
    }
    Some(acc)
}

/// The base-10 digit string of `n`, most significant digit first, with no
/// leading zeros (the value zero renders as a single `0`).
pub open spec fn dec_digits(n: nat) -> Seq<u8>
    decreases n,
{
    if n < 10 {
        seq![(48 + n) as u8]
    } else {
        dec_digits(n / 10).push((48 + n % 10) as u8)
    }
}

/// Render `n` in decimal.
pub fn render_decimal(n: u32) -> (r: Vec<u8>)
    ensures
        r@ == dec_digits(n as nat),
    decreases n,
{
    if n < 10 {
        let mut v: Vec<u8> = Vec::new();
        v.push(48 + n as u8);
        proof {
            assert(v@ =~= dec_digits(n as nat));
        }
        v
    } else {
        let mut v = render_decimal(n / 10);
        v.push(48 + (n % 10) as u8);
        v
    }
}

} // verus!
