//! Decimal text for integers, as Rust's `Display` writes it and `FromStr`
//! reads it.

use crate::buffers::{bytes_mut_view, put_u8};
use bytes::BytesMut;
use vstd::prelude::*;

verus! {

/// ASCII digits of `n`, most significant first, without leading zeros.
pub open spec fn digits(n: nat) -> Seq<u8>
    decreases n,
{
    if n < 10 {
        seq![(48 + n) as u8]
    } else {
        digits(n / 10).push((48 + n % 10) as u8)
    }
}

/// `n` written in decimal, with a leading `-` when negative.
pub open spec fn decimal(n: int) -> Seq<u8> {
    if n < 0 {
        seq![45u8] + digits((-n) as nat)
    } else {
        digits(n as nat)
    }
}

/// Every byte is an ASCII digit.
pub open spec fn all_digits(b: Seq<u8>) -> bool {
    forall|i: int| 0 <= i < b.len() ==> 48 <= #[trigger] b[i] <= 57
}

/// The number that a run of ASCII digits spells.
pub open spec fn digits_value(b: Seq<u8>) -> nat
    decreases b.len(),
{
    if b.len() == 0 {
        0
    } else {
        digits_value(b.drop_last()) * 10 + (b.last() - 48) as nat
    }
}

/// The digits after an optional leading sign byte `sign` (`+` is always
/// accepted; `-` is passed as `sign` for signed types).
pub open spec fn unsigned_part(b: Seq<u8>, signed: bool) -> Seq<u8> {
    if b.len() > 0 && (b[0] == 43 || (signed && b[0] == 45)) {
        b.drop_first()
    } else {
        b
    }
}

/// What `str::parse::<i64>` gives for a string whose bytes are `b`: an
/// optional `+` or `-`, then at least one ASCII digit and nothing else, with the
/// value in range.
pub open spec fn i64_from_decimal(b: Seq<u8>) -> Option<i64> {
    let d = unsigned_part(b, true);
    let v: int = if b.len() > 0 && b[0] == 45 {
        -(digits_value(d) as int)
    } else {
        digits_value(d) as int
    };
    if d.len() > 0 && all_digits(d) && i64::MIN <= v <= i64::MAX {
        Some(v as i64)
    } else {
        None
    }
}

/// What `str::parse::<u16>` gives for a string whose bytes are `b`: an
/// optional `+`, then at least one ASCII digit and nothing else, with the value
/// in range.
pub open spec fn u16_from_decimal(b: Seq<u8>) -> Option<u16> {
    let d = unsigned_part(b, false);
    if d.len() > 0 && all_digits(d) && digits_value(d) <= u16::MAX {
        Some(digits_value(d) as u16)
    } else {
        None
    }
}

/// A digit string's value is at least that of any of its prefixes.
pub proof fn lemma_digits_value_prefix(b: Seq<u8>, k: int)
    requires
        0 <= k <= b.len(),
        all_digits(b),
    ensures
        digits_value(b.take(k)) <= digits_value(b),
    decreases b.len(),
{
    if k < b.len() {
        assert(b.drop_last().take(k) =~= b.take(k));
        lemma_digits_value_prefix(b.drop_last(), k);
    } else {
        assert(b.take(k) =~= b);
    }
}

/// Reads a run of ASCII digits, failing when it is empty, holds another byte,
/// or spells a number above `limit`.
fn digits_up_to(d: &[u8], limit: u64) -> (r: Option<u64>)
    ensures
        r == (if d@.len() > 0 && all_digits(d@) && digits_value(d@) <= limit {
            Some(digits_value(d@) as u64)
        } else {
            None::<u64>
        }),
{
    if d.len() == 0 {
        return None;
    }
    let mut acc: u64 = 0;
    let mut i: usize = 0;
    while i < d.len()
        invariant
            i <= d@.len(),
            all_digits(d@.take(i as int)),
            acc as nat == digits_value(d@.take(i as int)),
            acc <= limit,
        decreases d.len() - i,
    {
        let c = d[i];
        if c < 48 || c > 57 {
            return None;
        }
        proof {
            assert(d@.take(i + 1).drop_last() =~= d@.take(i as int));
            assert(all_digits(d@.take(i + 1)));
        }
        let digit = (c - 48) as u64;
        if digit > limit || acc > (limit - digit) / 10 {
            proof {
                assert(acc * 10 + digit > limit) by (nonlinear_arith)
                    requires
                        digit > limit || acc > (limit - digit) / 10,
                ;
                if all_digits(d@) {
                    lemma_digits_value_prefix(d@, i + 1);
                }
            }
            return None;
        }
        acc = acc * 10 + digit;
        i = i + 1;
    }
    assert(d@.take(i as int) =~= d@);
    Some(acc)
}

/// `str::parse::<i64>` on the text whose bytes are `b`.
pub fn i64_from_ascii(b: &[u8]) -> (r: Option<i64>)
    ensures
        r == i64_from_decimal(b@),
{
    let neg = b.len() > 0 && b[0] == 45;
    let d: &[u8] = if b.len() > 0 && (b[0] == 43 || b[0] == 45) {
        &b[1..b.len()]
    } else {
        b
    };
    assert(d@ =~= unsigned_part(b@, true));
    let limit: u64 = if neg {
        9223372036854775808u64
    } else {
        9223372036854775807u64
    };
    match digits_up_to(d, limit) {
        None => None,
        Some(m) => {
            if neg {
                if m == 9223372036854775808u64 {
                    Some(i64::MIN)
                } else {
                    Some(-(m as i64))
                }
            } else {
                Some(m as i64)
            }
        },
    }
}

/// `str::parse::<u16>` on the text whose bytes are `b`.
pub fn u16_from_ascii(b: &[u8]) -> (r: Option<u16>)
    ensures
        r == u16_from_decimal(b@),
{
    let d: &[u8] = if b.len() > 0 && b[0] == 43 {
        &b[1..b.len()]
    } else {
        b
    };
    assert(d@ =~= unsigned_part(b@, false));
    match digits_up_to(d, 65535) {
        None => None,
        Some(m) => Some(m as u16),
    }
}

/// Appends the ASCII digits of `n`.
pub fn put_digits(buf: &mut BytesMut, n: u64)
    ensures
        bytes_mut_view(*final(buf)) == bytes_mut_view(*old(buf)) + digits(n as nat),
    decreases n,
{
    if n >= 10 {
        put_digits(buf, n / 10);
    }
    put_u8(buf, (48 + n % 10) as u8);
}

/// Appends `n` in decimal, as `i64`'s `Display` writes it.
pub fn put_decimal(buf: &mut BytesMut, n: i64)
    ensures
        bytes_mut_view(*final(buf)) == bytes_mut_view(*old(buf)) + decimal(n as int),
{
    if n < 0 {
        put_u8(buf, 45);
        let m: u64 = if n == i64::MIN {
            9223372036854775808u64
        } else {
            (-n) as u64
        };
        put_digits(buf, m);
    } else {
        put_digits(buf, n as u64);
    }
}

} // verus!
