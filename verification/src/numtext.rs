//! Decimal text for 64-bit integers: the meaning of a digit string, and a
//! verified reader for signed tokens. Port immediates and the program codec
//! both speak this language.

use vstd::prelude::*;

verus! {

/// An ASCII decimal digit.
pub open spec fn is_digit(b: u8) -> bool {
    48 <= b <= 57
}

/// Every byte of `s` is a decimal digit.
pub open spec fn all_digits(s: Seq<u8>) -> bool {
    forall|i: int| 0 <= i < s.len() ==> is_digit(#[trigger] s[i])
}

/// Numeric value of a most-significant-first digit string.
pub open spec fn digits_val(s: Seq<u8>) -> nat
    recommends
        all_digits(s),
    decreases s.len(),
{
    if s.len() == 0 {
        0
    } else {
        (digits_val(s.drop_last()) * 10 + (s.last() - 48)) as nat
    }
}

/// What a signed decimal token denotes: an optional `+`/`-` sign, then one or
/// more digits, the value in range for `i64`; anything else denotes nothing.
pub open spec fn spec_parse_i64(tok: Seq<u8>) -> Option<i64> {
    let neg = tok.len() > 0 && tok[0] == 45;
    let ds = if tok.len() > 0 && (tok[0] == 45 || tok[0] == 43) {
        tok.skip(1)
    } else {
        tok
    };
    if ds.len() == 0 || !all_digits(ds) {
        None
    } else {
        let sv = if neg {
            -(digits_val(ds) as int)
        } else {
            digits_val(ds) as int
        };
        if i64::MIN <= sv <= i64::MAX {
            Some(sv as i64)
        } else {
            None
        }
    }
}

/// Reads a signed decimal token, exactly as `spec_parse_i64` gives it.
pub fn parse_i64(tok: &[u8]) -> (r: Option<i64>)
    ensures
        r == spec_parse_i64(tok@),
{
    let n = tok.len();
    if n == 0 {
        return None;
    }
    let neg = tok[0] == 45;
    let has_sign = tok[0] == 45 || tok[0] == 43;
    let start: usize = if has_sign {
        1
    } else {
        0
    };
    let ghost ds = if has_sign {
        tok@.skip(1)
    } else {
        tok@
    };
    if start == n {
        return None;
    }
    let mut i: usize = start;
    let mut cur: u128 = 0;
    let mut over: bool = false;
    while i < n
        invariant
            start <= i <= n == tok@.len(),
            start == 0 || start == 1,
            (start == 1) == (tok@[0] == 45 || tok@[0] == 43),
            ds == (if start == 1 {
                tok@.skip(1)
            } else {
                tok@
            }),
            ds.len() == n - start,
            forall|k: int| 0 <= k < ds.len() ==> ds[k] == tok@[k + start],
            all_digits(ds.take(i - start)),
            !over ==> cur == digits_val(ds.take(i - start)) && cur
                <= 0x8000_0000_0000_0000u128,
            over ==> digits_val(ds.take(i - start)) > 0x8000_0000_0000_0000u128,
        decreases n - i,
    {
        let b = tok[i];
        if b < 48 || b > 57 {
            proof {
                assert(ds[i - start] == b);
                assert(!all_digits(ds));
            }
            return None;
        }
        proof {
            assert(ds.take(i + 1 - start).drop_last() =~= ds.take(i - start));
            assert(ds.take(i + 1 - start).last() == ds[i - start]);
        }
        if over {
            proof {
                assert(digits_val(ds.take(i + 1 - start)) > 0x8000_0000_0000_0000u128);
            }
        } else {
            let d: u128 = (b - 48) as u128;
            let next: u128 = cur * 10 + d;
            if next > 0x8000_0000_0000_0000u128 {
                over = true;
            } else {
                cur = next;
            }
        }
        i = i + 1;
    }
    proof {
        assert(ds.take(n - start) =~= ds);
    }
    if over {
        return None;
    }
    if neg {
        if cur == 0x8000_0000_0000_0000u128 {
            Some(i64::MIN)
        } else {
            Some(-(cur as i64))
        }
    } else {
        if cur >= 0x8000_0000_0000_0000u128 {
            None
        } else {
            Some(cur as i64)
        }
    }
}
} // verus!
