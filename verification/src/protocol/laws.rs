//! What the wire format promises: parsing undoes encoding, and every answer
//! of the parser but "incomplete" is final.

use crate::protocol::decimal::{all_digits, decimal, digits, digits_value, i64_from_decimal};
use crate::protocol::decode::{bulk_at, items_at, lemma_line_end_bounds, line_end, read_line, value_at};
use crate::protocol::encode::{crlf, encode_items, encode_model};
use crate::protocol::error::RespFault;
use crate::protocol::value::{RespModel, RespValue};
use vstd::prelude::*;
use vstd::utf8::*;

verus! {

/// No CR immediately followed by LF.
pub open spec fn no_crlf(b: Seq<u8>) -> bool {
    forall|k: int| 0 <= k < b.len() - 1 ==> !(#[trigger] b[k] == 13 && b[k + 1] == 10)
}

/// No `'\r'` immediately followed by `'\n'`.
pub open spec fn no_crlf_chars(s: Seq<char>) -> bool {
    forall|k: int| 0 <= k < s.len() - 1 ==> !(#[trigger] s[k] == '\r' && s[k + 1] == '\n')
}

/// A value that survives the trip through the wire: simple strings and errors
/// hold no CR LF, and lengths fit the `i64` that the parser reads them into.
pub open spec fn wire_safe(m: RespModel) -> bool
    decreases m,
{
    match m {
        RespModel::Simple(s) => no_crlf_chars(s),
        RespModel::Error(s) => no_crlf_chars(s),
        RespModel::Integer(n) => i64::MIN <= n <= i64::MAX,
        RespModel::Bulk(None) => true,
        RespModel::Bulk(Some(b)) => b.len() <= i64::MAX,
        RespModel::Array(None) => true,
        RespModel::Array(Some(items)) => items.len() <= i64::MAX && items_wire_safe(items),
    }
}

/// Every value of the sequence is `wire_safe`.
pub open spec fn items_wire_safe(items: Seq<RespModel>) -> bool
    decreases items,
{
    items.len() > 0 ==> wire_safe(items[0]) && items_wire_safe(items.drop_first())
}

proof fn lemma_or_high_bit(x: u8)
    by (bit_vector)
    ensures
        (0x80u8 | x) >= 0x80,
        (0xC0u8 | x) >= 0x80,
        (0xE0u8 | x) >= 0x80,
        (0xF0u8 | x) >= 0x80,
{
}

proof fn lemma_width_1_byte(c: u32)
    by (bit_vector)
    requires
        c <= 0x7F,
    ensures
        ((c & 0x7F) as u8) as u32 == c,
{
}

/// The bytes of one scalar: a single ASCII byte equal to the scalar, or bytes
/// that all have the high bit set.
proof fn lemma_encode_scalar_bytes(c: char)
    ensures
        (c as u32) <= 0x7F ==> encode_scalar(c as u32) == seq![(c as u32) as u8],
        (c as u32) > 0x7F ==> encode_scalar(c as u32).len() > 0 && forall|i: int|
            0 <= i < encode_scalar(c as u32).len() ==> #[trigger] encode_scalar(c as u32)[i] >= 0x80,
{
    let u = c as u32;
    if u <= 0x7F {
        lemma_width_1_byte(u);
    } else {
        lemma_or_high_bit(((u >> 6) & 0x1F) as u8);
        lemma_or_high_bit(((u >> 12) & 0x0F) as u8);
        lemma_or_high_bit(((u >> 18) & 0x7) as u8);
        lemma_or_high_bit((u & 0x3F) as u8);
        lemma_or_high_bit(((u >> 6) & 0x3F) as u8);
        lemma_or_high_bit(((u >> 12) & 0x3F) as u8);
    }
}

/// UTF-8 encoding never makes a CR LF pair out of text that has none.
proof fn lemma_encode_utf8_no_crlf(s: Seq<char>)
    requires
        no_crlf_chars(s),
    ensures
        no_crlf(encode_utf8(s)),
        s.len() > 0 && encode_utf8(s)[0] == 10 ==> s[0] == '\n',
        s.len() > 0 ==> encode_utf8(s).len() > 0,
    decreases s.len(),
{
    if s.len() > 0 {
        let rest = s.drop_first();
        assert(no_crlf_chars(rest)) by {
            assert forall|k: int| 0 <= k < rest.len() - 1 implies !(#[trigger] rest[k] == '\r'
                && rest[k + 1] == '\n') by {
                assert(rest[k] == s[k + 1] && rest[k + 1] == s[k + 2]);
            }
        }
        lemma_encode_utf8_no_crlf(rest);
        lemma_encode_scalar_bytes(s[0]);
        let head = encode_scalar(s[0] as u32);
        let tail = encode_utf8(rest);
        let e = encode_utf8(s);
        assert(e == head + tail);
        assert forall|k: int| 0 <= k < e.len() - 1 implies !(#[trigger] e[k] == 13 && e[k + 1]
            == 10) by {
            if k >= head.len() {
                assert(e[k] == tail[k - head.len()] && e[k + 1] == tail[k - head.len() + 1]);
            } else if (s[0] as u32) <= 0x7F {
                // the pair would be `s[0]` and the first byte of the rest
                if e[k] == 13 && e[k + 1] == 10 {
                    assert(s[0] as u32 == 13);
                    char_u32_cast(s[0], 13);
                    char_u32_cast('\r', 13);
                    assert(e[k + 1] == tail[0]);
                    assert(rest[0] == '\n');
                    assert(s[1] == '\n');
                    assert(s[0] == '\r');
                }
            } else {
                assert(e[k] == head[k]);
            }
        }
        if (s[0] as u32) <= 0x7F {
            if e[0] == 10 {
                assert(s[0] as u32 == 10);
                char_u32_cast(s[0], 10);
                char_u32_cast('\n', 10);
            }
        } else {
            assert(e[0] == head[0]);
        }
    }
}

/// ASCII bytes are valid UTF-8.
pub(crate) proof fn lemma_ascii_valid(b: Seq<u8>)
    requires
        forall|i: int| 0 <= i < b.len() ==> #[trigger] b[i] < 0x80,
    ensures
        valid_utf8(b),
{
    broadcast use utf8_byte_ranges_bitwise;

    assert(b.subrange(0, 0) =~= Seq::<u8>::empty());
    assert(partial_valid_utf8(b, 0));
    assert forall|i: int| 0 <= 0 <= i < b.len() <= b.len() implies #[trigger] is_leading_byte_width_1(
        b[i],
    ) by {
        assert(b[i] < 0x80);
    }
    partial_valid_utf8_extend_ascii_block(b, 0, b.len() as int);
    assert(b.subrange(0, b.len() as int) =~= b);
}

/// The digits of `n` spell `n`.
proof fn lemma_digits(n: nat)
    ensures
        digits(n).len() > 0,
        all_digits(digits(n)),
        digits_value(digits(n)) == n,
    decreases n,
{
    if n >= 10 {
        lemma_digits(n / 10);
        let d = digits(n);
        assert(d.drop_last() =~= digits(n / 10));
        assert(d.last() == (48 + n % 10) as u8);
        assert((d.last() - 48) as nat == n % 10);
        assert(n == (n / 10) * 10 + n % 10);
        assert(digits_value(d) == digits_value(d.drop_last()) * 10 + (d.last() - 48) as nat);
        assert forall|i: int| 0 <= i < d.len() implies 48 <= #[trigger] d[i] <= 57 by {
            if i < d.len() - 1 {
                assert(d[i] == digits(n / 10)[i]);
            }
        }
    } else {
        let d = digits(n);
        assert(d.drop_last() =~= Seq::<u8>::empty());
        assert(digits_value(Seq::<u8>::empty()) == 0);
        assert(digits_value(d) == digits_value(d.drop_last()) * 10 + (d.last() - 48) as nat);
    }
}

/// `decimal(n)` is read back as `n`, and is a plain ASCII line.
proof fn lemma_decimal(n: int)
    requires
        i64::MIN <= n <= i64::MAX,
    ensures
        i64_from_decimal(decimal(n)) == Some(n as i64),
        forall|i: int| 0 <= i < decimal(n).len() ==> 45 <= #[trigger] decimal(n)[i] < 0x80,
{
    if n < 0 {
        lemma_digits((-n) as nat);
        let d = digits((-n) as nat);
        let b = decimal(n);
        assert(b.drop_first() =~= d);
        assert forall|i: int| 0 <= i < b.len() implies 45 <= #[trigger] b[i] < 0x80 by {
            if i > 0 {
                assert(b[i] == d[i - 1]);
            }
        }
    } else {
        lemma_digits(n as nat);
    }
}

/// `decimal(n)` is read back as `n`.
pub proof fn lemma_decimal_reads_back(n: int)
    requires
        i64::MIN <= n <= i64::MAX,
    ensures
        i64_from_decimal(decimal(n)) == Some(n as i64),
{
    lemma_decimal(n);
}

/// Finding the line terminator: the first CR LF pair from `from` is at `j`.
proof fn lemma_line_end_at(buf: Seq<u8>, from: int, j: int)
    requires
        0 <= from <= j,
        j + 1 < buf.len(),
        buf[j] == 13,
        buf[j + 1] == 10,
        forall|k: int| from <= k < j ==> !(#[trigger] buf[k] == 13 && buf[k + 1] == 10),
    ensures
        line_end(buf, from) == Some(j),
    decreases j - from,
{
    if from < j {
        lemma_line_end_at(buf, from + 1, j);
    }
}

/// A line that holds no CR LF and is followed by CR LF is read as it is.
proof fn lemma_read_line_of(buf: Seq<u8>, from: int, line: Seq<u8>)
    requires
        0 <= from,
        from + line.len() + 2 <= buf.len(),
        buf.subrange(from, from + line.len()) == line,
        buf[from + line.len()] == 13,
        buf[from + line.len() + 1] == 10,
        no_crlf(line),
        valid_utf8(line),
    ensures
        read_line(buf, from) == Ok::<(Seq<u8>, int), RespFault>((line, from + line.len() + 2)),
{
    let j = from + line.len();
    assert forall|k: int| from <= k < j implies !(#[trigger] buf[k] == 13 && buf[k + 1] == 10) by {
        assert(buf[k] == line[k - from]);
        if k + 1 < j {
            assert(buf[k + 1] == line[k + 1 - from]);
        }
    }
    lemma_line_end_at(buf, from, j);
}

/// A window into an encoding that sits inside a buffer.
proof fn lemma_window(buf: Seq<u8>, pos: int, e: Seq<u8>, off: int, len: int)
    requires
        0 <= pos,
        pos + e.len() <= buf.len(),
        buf.subrange(pos, pos + e.len()) == e,
        0 <= off,
        0 <= len,
        off + len <= e.len(),
    ensures
        buf.subrange(pos + off, pos + off + len) == e.subrange(off, off + len),
        forall|k: int| off <= k < off + len ==> #[trigger] buf[pos + k] == e[k],
{
    assert forall|k: int| off <= k < off + len implies #[trigger] buf[pos + k] == e[k] by {
        assert(buf.subrange(pos, pos + e.len())[k] == buf[pos + k]);
    }
    assert(buf.subrange(pos + off, pos + off + len) =~= e.subrange(off, off + len));
}

/// Every encoding starts with its type tag, so it is never empty.
proof fn lemma_encode_nonempty(m: RespModel)
    ensures
        encode_model(m).len() > 0,
{
}

/// A text line (`+` or `-`) encoded at `pos` is read back.
proof fn lemma_text_line(buf: Seq<u8>, pos: int, tag: u8, s: Seq<char>)
    requires
        no_crlf_chars(s),
        0 <= pos,
        pos + (seq![tag] + encode_utf8(s) + crlf()).len() <= buf.len(),
        buf.subrange(pos, pos + (seq![tag] + encode_utf8(s) + crlf()).len()) == seq![tag]
            + encode_utf8(s) + crlf(),
    ensures
        buf[pos] == tag,
        read_line(buf, pos + 1) == Ok::<(Seq<u8>, int), RespFault>(
            (encode_utf8(s), pos + (seq![tag] + encode_utf8(s) + crlf()).len()),
        ),
        decode_utf8(encode_utf8(s)) == s,
{
    let line = encode_utf8(s);
    let e = seq![tag] + line + crlf();
    lemma_encode_utf8_no_crlf(s);
    encode_utf8_valid_utf8(s);
    encode_utf8_decode_utf8(s);
    lemma_window(buf, pos, e, 0, e.len() as int);
    assert(e.subrange(1, 1 + (line.len() as int)) =~= line);
    lemma_window(buf, pos, e, 1, line.len() as int);
    assert(e[1 + (line.len() as int)] == 13);
    assert(e[2 + (line.len() as int)] == 10);
    lemma_read_line_of(buf, pos + 1, line);
}

/// A decimal line (after a one-byte tag at `pos`) is read back as its number.
proof fn lemma_number_line(buf: Seq<u8>, pos: int, e: Seq<u8>, n: int)
    requires
        i64::MIN <= n <= i64::MAX,
        0 <= pos,
        pos + e.len() <= buf.len(),
        buf.subrange(pos, pos + e.len()) == e,
        e.len() >= 1 + (decimal(n).len() as int) + 2,
        e.subrange(1, 1 + (decimal(n).len() as int)) == decimal(n),
        e[1 + (decimal(n).len() as int)] == 13,
        e[2 + (decimal(n).len() as int)] == 10,
    ensures
        read_line(buf, pos + 1) == Ok::<(Seq<u8>, int), RespFault>(
            (decimal(n), pos + 1 + (decimal(n).len() as int) + 2),
        ),
        i64_from_decimal(decimal(n)) == Some(n as i64),
{
    let line = decimal(n);
    lemma_decimal(n);
    lemma_ascii_valid(line);
    lemma_window(buf, pos, e, 1, line.len() as int);
    lemma_window(buf, pos, e, 1 + (line.len() as int), 2);
    assert(no_crlf(line)) by {
        assert forall|k: int| 0 <= k < line.len() - 1 implies !(#[trigger] line[k] == 13 && line[k
            + 1] == 10) by {
            assert(line[k] >= 45);
        }
    }
    lemma_read_line_of(buf, pos + 1, line);
}

proof fn lemma_text_roundtrip(m: RespModel, buf: Seq<u8>, pos: int)
    requires
        m is Simple || m is Error,
        wire_safe(m),
        0 <= pos,
        pos + encode_model(m).len() <= buf.len(),
        buf.subrange(pos, pos + encode_model(m).len()) == encode_model(m),
    ensures
        value_at(buf, pos) == Ok::<(RespModel, int), RespFault>((m, pos + encode_model(m).len())),
{
    match m {
        RespModel::Simple(s) => {
            lemma_text_line(buf, pos, 43, s);
        },
        RespModel::Error(s) => {
            lemma_text_line(buf, pos, 45, s);
        },
        _ => {},
    }
}

proof fn lemma_scalar_roundtrip(m: RespModel, buf: Seq<u8>, pos: int)
    requires
        m is Integer || m is Bulk || m matches RespModel::Array(None),
        wire_safe(m),
        0 <= pos,
        pos + encode_model(m).len() <= buf.len(),
        buf.subrange(pos, pos + encode_model(m).len()) == encode_model(m),
    ensures
        value_at(buf, pos) == Ok::<(RespModel, int), RespFault>((m, pos + encode_model(m).len())),
{
    let e = encode_model(m);
    lemma_window(buf, pos, e, 0, 1);
    assert(buf[pos] == e[0]) by {
        assert(buf[pos + 0] == e[0]);
    }
    match m {
        RespModel::Integer(n) => {
            assert(e.subrange(1, 1 + (decimal(n).len() as int)) =~= decimal(n));
            lemma_number_line(buf, pos, e, n);
        },
        RespModel::Bulk(None) => {
            assert(e.subrange(1, 3) =~= decimal(-1));
            lemma_number_line(buf, pos, e, -1);
        },
        RespModel::Bulk(Some(b)) => {
            let d = digits(b.len());
            assert(d == decimal(b.len() as int));
            assert(e.subrange(1, 1 + (d.len() as int)) =~= d);
            lemma_number_line(buf, pos, e, b.len() as int);
            assert(e.subrange(3 + (d.len() as int), 3 + (d.len() as int) + (b.len() as int)) =~= b);
            lemma_window(buf, pos, e, 3 + (d.len() as int), b.len() as int);
            lemma_window(buf, pos, e, 3 + (d.len() as int) + (b.len() as int), 2);
            let p = pos + 1 + (d.len() as int) + 2;
            let k = 3 + (d.len() as int) + (b.len() as int);
            assert(buf[pos + k] == e[k]);
            assert(buf[pos + (k + 1)] == e[k + 1]);
        },
        RespModel::Array(None) => {
            assert(e.subrange(1, 3) =~= decimal(-1));
            lemma_number_line(buf, pos, e, -1);
        },
        _ => {},
    }
}

proof fn lemma_value_roundtrip(m: RespModel, buf: Seq<u8>, pos: int)
    requires
        wire_safe(m),
        0 <= pos,
        pos + encode_model(m).len() <= buf.len(),
        buf.subrange(pos, pos + encode_model(m).len()) == encode_model(m),
    ensures
        value_at(buf, pos) == Ok::<(RespModel, int), RespFault>((m, pos + encode_model(m).len())),
    decreases m,
{
    match m {
        RespModel::Array(Some(items)) => {
            let e = encode_model(m);
            lemma_window(buf, pos, e, 0, 1);
            assert(buf[pos] == e[0]) by {
                assert(buf[pos + 0] == e[0]);
            }
            let d = digits(items.len());
            assert(d == decimal(items.len() as int));
            assert(e.subrange(1, 1 + (d.len() as int)) =~= d);
            lemma_number_line(buf, pos, e, items.len() as int);
            let p = pos + 1 + (d.len() as int) + 2;
            let ei = encode_items(items);
            assert(e.subrange(3 + (d.len() as int), 3 + (d.len() as int) + (ei.len() as int)) =~= ei);
            lemma_window(buf, pos, e, 3 + (d.len() as int), ei.len() as int);
            lemma_items_roundtrip(items, buf, p);
        },
        RespModel::Simple(_) => lemma_text_roundtrip(m, buf, pos),
        RespModel::Error(_) => lemma_text_roundtrip(m, buf, pos),
        _ => lemma_scalar_roundtrip(m, buf, pos),
    }
}

proof fn lemma_items_roundtrip(items: Seq<RespModel>, buf: Seq<u8>, pos: int)
    requires
        items_wire_safe(items),
        0 <= pos,
        pos + encode_items(items).len() <= buf.len(),
        buf.subrange(pos, pos + encode_items(items).len()) == encode_items(items),
    ensures
        items_at(buf, pos, items.len()) == Ok::<(Seq<RespModel>, int), RespFault>(
            (items, pos + encode_items(items).len()),
        ),
    decreases items,
{
    if items.len() > 0 {
        let e = encode_items(items);
        let e0 = encode_model(items[0]);
        let rest = items.drop_first();
        let er = encode_items(rest);
        assert(e == e0 + er);
        lemma_encode_nonempty(items[0]);
        lemma_window(buf, pos, e, 0, e0.len() as int);
        assert(e.subrange(0, e0.len() as int) =~= e0);
        lemma_window(buf, pos, e, e0.len() as int, er.len() as int);
        assert(e.subrange(e0.len() as int, (e0.len() as int) + (er.len() as int)) =~= er);
        lemma_value_roundtrip(items[0], buf, pos);
        lemma_items_roundtrip(rest, buf, pos + (e0.len() as int));
        assert(seq![items[0]] + rest =~= items);
    } else {
        assert(items =~= Seq::<RespModel>::empty());
    }
}

/// Parsing inverts encoding: the bytes of a value, followed by anything,
/// parse back to that value and exactly its bytes are consumed — for every
/// value whose simple strings and errors hold no CR LF (and whose lengths fit
/// in an `i64`).
pub proof fn law_parse_inverts_encode(v: RespValue, rest: Seq<u8>)
    requires
        wire_safe(v.model()),
    ensures
        value_at(encode_model(v.model()) + rest, 0) == Ok::<(RespModel, int), RespFault>(
            (v.model(), encode_model(v.model()).len() as int),
        ),
{
    let e = encode_model(v.model());
    assert((e + rest).subrange(0, e.len() as int) =~= e);
    lemma_value_roundtrip(v.model(), e + rest, 0);
}

/// A terminator found in a buffer is found at the same place when more bytes follow.
proof fn lemma_line_end_extend(buf: Seq<u8>, more: Seq<u8>, from: int)
    ensures
        line_end(buf, from) matches Some(j) ==> line_end(buf + more, from) == Some(j),
    decreases buf.len() - from,
{
    if !(from < 0 || from + 1 >= buf.len()) {
        assert((buf + more)[from] == buf[from] && (buf + more)[from + 1] == buf[from + 1]);
        if !(buf[from] == 13 && buf[from + 1] == 10) {
            lemma_line_end_extend(buf, more, from + 1);
        }
    }
}

proof fn lemma_read_line_extend(buf: Seq<u8>, more: Seq<u8>, from: int)
    requires
        read_line(buf, from) != Err::<(Seq<u8>, int), RespFault>(RespFault::Incomplete),
    ensures
        read_line(buf + more, from) == read_line(buf, from),
{
    lemma_line_end_extend(buf, more, from);
    lemma_line_end_bounds(buf, from);
    let j = line_end(buf, from)->Some_0;
    assert((buf + more).subrange(from, j) =~= buf.subrange(from, j));
}

proof fn lemma_bulk_extend(buf: Seq<u8>, more: Seq<u8>, pos: int)
    requires
        bulk_at(buf, pos) != Err::<(RespModel, int), RespFault>(RespFault::Incomplete),
    ensures
        bulk_at(buf + more, pos) == bulk_at(buf, pos),
{
    lemma_read_line_extend(buf, more, pos);
    lemma_line_end_bounds(buf, pos);
    if let Ok((line, p)) = read_line(buf, pos) {
        if let Some(n) = i64_from_decimal(line) {
            if n >= 0 && buf.len() >= p + n + 2 {
                assert((buf + more)[p + n] == buf[p + n]);
                assert((buf + more)[p + n + 1] == buf[p + n + 1]);
                assert((buf + more).subrange(p, p + n) =~= buf.subrange(p, p + n));
            }
        }
    }
}

proof fn lemma_value_extend(buf: Seq<u8>, more: Seq<u8>, pos: int)
    requires
        value_at(buf, pos) != Err::<(RespModel, int), RespFault>(RespFault::Incomplete),
    ensures
        value_at(buf + more, pos) == value_at(buf, pos),
    decreases buf.len() - pos, 0int, 0int,
{
    if 0 <= pos < buf.len() {
        let tag = buf[pos];
        assert((buf + more)[pos] == tag);
        if tag == 36 {
            lemma_bulk_extend(buf, more, pos + 1);
        } else if tag == 42 {
            lemma_read_line_extend(buf, more, pos + 1);
            lemma_line_end_bounds(buf, pos + 1);
            if let Ok((line, p)) = read_line(buf, pos + 1) {
                if let Some(n) = i64_from_decimal(line) {
                    if n >= 0 {
                        lemma_items_extend(buf, more, p, n as nat);
                    }
                }
            }
        } else if tag == 43 || tag == 45 || tag == 58 {
            lemma_read_line_extend(buf, more, pos + 1);
        }
    }
}

proof fn lemma_items_extend(buf: Seq<u8>, more: Seq<u8>, pos: int, n: nat)
    requires
        items_at(buf, pos, n) != Err::<(Seq<RespModel>, int), RespFault>(RespFault::Incomplete),
    ensures
        items_at(buf + more, pos, n) == items_at(buf, pos, n),
    decreases buf.len() - pos, 1int, n,
{
    if n > 0 && 0 <= pos <= buf.len() {
        lemma_value_extend(buf, more, pos);
        if let Ok((v, q)) = value_at(buf, pos) {
            if pos < q <= buf.len() {
                lemma_items_extend(buf, more, q, (n - 1) as nat);
            }
        }
    }
}

/// Every answer of the parser but "incomplete" is final: once a buffer parses
/// to a value (or to a definite error), more bytes after it change nothing,
/// so pipelined frames are read one at a time.
pub proof fn law_parse_is_final(buf: Seq<u8>, more: Seq<u8>)
    requires
        value_at(buf, 0) != Err::<(RespModel, int), RespFault>(RespFault::Incomplete),
    ensures
        value_at(buf + more, 0) == value_at(buf, 0),
{
    lemma_value_extend(buf, more, 0);
}


/// `n` values read from `pos` end within the buffer, at or after `pos`.
proof fn lemma_items_bounds(buf: Seq<u8>, pos: int, n: nat)
    requires
        0 <= pos <= buf.len(),
    ensures
        items_at(buf, pos, n) matches Ok((_, r)) ==> pos <= r <= buf.len(),
    decreases n,
{
    if n > 0 {
        if let Ok((v, q)) = value_at(buf, pos) {
            if pos < q <= buf.len() {
                lemma_items_bounds(buf, q, (n - 1) as nat);
            }
        }
    }
}

/// A value read from `pos` takes at least one byte and ends within the buffer.
proof fn lemma_value_bounds(buf: Seq<u8>, pos: int)
    ensures
        value_at(buf, pos) matches Ok((_, k)) ==> pos < k <= buf.len(),
{
    if 0 <= pos < buf.len() {
        lemma_line_end_bounds(buf, pos + 1);
        if buf[pos] == 42 {
            if let Ok((line, p)) = read_line(buf, pos + 1) {
                if let Some(n) = i64_from_decimal(line) {
                    if n >= 0 {
                        lemma_items_bounds(buf, p, n as nat);
                    }
                }
            }
        }
    }
}

/// A strict prefix of the bytes of a value parses as incomplete: a partial
/// frame asks for more bytes (and `parse` then leaves the buffer as it was),
/// for every value whose simple strings and errors hold no CR LF.
pub proof fn law_prefix_is_incomplete(v: RespValue, n: int)
    requires
        wire_safe(v.model()),
        0 <= n < encode_model(v.model()).len(),
    ensures
        value_at(encode_model(v.model()).take(n), 0) == Err::<(RespModel, int), RespFault>(
            RespFault::Incomplete,
        ),
{
    let e = encode_model(v.model());
    let p = e.take(n);
    let rest = e.skip(n);
    assert(p + rest =~= e);
    assert(e + Seq::<u8>::empty() =~= e);
    if value_at(p, 0) != Err::<(RespModel, int), RespFault>(RespFault::Incomplete) {
        law_parse_is_final(p, rest);
        law_parse_inverts_encode(v, Seq::<u8>::empty());
        lemma_value_bounds(p, 0);
    }
}


/// The values that parsing a buffer again and again yields, in order, until
/// it answers anything but a value.
pub open spec fn parse_all(buf: Seq<u8>) -> Seq<RespModel>
    decreases buf.len(),
{
    match value_at(buf, 0) {
        Ok((v, k)) => if 0 < k <= buf.len() {
            seq![v] + parse_all(buf.skip(k))
        } else {
            Seq::empty()
        },
        Err(_) => Seq::empty(),
    }
}

/// The bytes of the values, one after the other.
pub open spec fn encode_all(vs: Seq<RespValue>) -> Seq<u8>
    decreases vs.len(),
{
    if vs.len() == 0 {
        Seq::empty()
    } else {
        encode_model(vs[0].model()) + encode_all(vs.drop_first())
    }
}

/// Every value of the sequence is `wire_safe`.
pub open spec fn all_wire_safe(vs: Seq<RespValue>) -> bool {
    forall|i: int| 0 <= i < vs.len() ==> wire_safe((#[trigger] vs[i]).model())
}

/// How many of the values have all their bytes among the first `n` bytes of
/// their encodings.
pub open spec fn arrived(vs: Seq<RespValue>, n: int) -> nat
    decreases vs.len(),
{
    if vs.len() == 0 || n < encode_model(vs[0].model()).len() {
        0
    } else {
        1 + arrived(vs.drop_first(), n - encode_model(vs[0].model()).len())
    }
}

/// A stream of requests is read in order whatever bytes of it have arrived:
/// from the first `n` bytes of the encodings of `vs`, parsing yields exactly
/// the requests whose bytes have all arrived, in order, and the rest waits as
/// an incomplete frame; once the whole stream is there, every request is read.
/// So the values read do not depend on how the stream was cut into reads.
pub proof fn law_stream_parses_in_order(vs: Seq<RespValue>, n: int)
    requires
        all_wire_safe(vs),
        0 <= n <= encode_all(vs).len(),
    ensures
        arrived(vs, n) <= vs.len(),
        parse_all(encode_all(vs).take(n)) == vs.take(arrived(vs, n) as int).map_values(
            |v: RespValue| v.model(),
        ),
        n == encode_all(vs).len() ==> arrived(vs, n) == vs.len(),
    decreases vs.len(),
{
    let e = encode_all(vs);
    let models = |v: RespValue| v.model();
    if vs.len() == 0 {
        assert(e.take(n) =~= Seq::<u8>::empty());
        assert(vs.take(0).map_values(models) =~= Seq::<RespModel>::empty());
    } else {
        let v0 = vs[0];
        let e0 = encode_model(v0.model());
        let tail = vs.drop_first();
        let et = encode_all(tail);
        assert(e == e0 + et);
        assert(wire_safe(v0.model()));
        if n < e0.len() {
            assert(e.take(n) =~= e0.take(n));
            law_prefix_is_incomplete(v0, n);
            assert(parse_all(e.take(n)) =~= Seq::<RespModel>::empty());
            assert(vs.take(0).map_values(models) =~= Seq::<RespModel>::empty());
        } else {
            let m = n - e0.len();
            assert(all_wire_safe(tail)) by {
                assert forall|i: int| 0 <= i < tail.len() implies wire_safe(
                    (#[trigger] tail[i]).model(),
                ) by {
                    assert(tail[i] == vs[i + 1]);
                }
            }
            law_stream_parses_in_order(tail, m);
            let j = arrived(tail, m) as int;
            let buf = e.take(n);
            assert(buf =~= e0 + et.take(m));
            law_parse_inverts_encode(v0, et.take(m));
            lemma_encode_nonempty(v0.model());
            assert(buf.skip(e0.len() as int) =~= et.take(m));
            assert(parse_all(buf) == seq![v0.model()] + parse_all(et.take(m)));
            assert(vs.take(j + 1) =~= seq![v0] + tail.take(j));
            assert(vs.take(j + 1).map_values(models) =~= seq![v0.model()] + tail.take(j).map_values(
                models,
            ));
        }
    }
}

} // verus!
