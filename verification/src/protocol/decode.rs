use crate::buffers::bytes_mut_view;
use crate::protocol::decimal::{i64_from_ascii, i64_from_decimal};
use crate::protocol::error::{RespError, RespFault};
use crate::protocol::value::{RespModel, RespValue};
use crate::text::utf8_to_string;
use bytes::{Buf, Bytes, BytesMut};
use vstd::prelude::*;
use vstd::string::StringSliceAdditionalSpecFns;
use vstd::utf8::{decode_utf8, encode_utf8, valid_utf8};

verus! {

/// The position of the first CR LF pair that starts at or after `from`.
pub open spec fn line_end(buf: Seq<u8>, from: int) -> Option<int>
    decreases buf.len() - from,
{
    if from < 0 || from + 1 >= buf.len() {
        None
    } else if buf[from] == 13 && buf[from + 1] == 10 {
        Some(from)
    } else {
        line_end(buf, from + 1)
    }
}

/// The line that starts at `from` (without its CR LF) and the position after
/// the CR LF; the line must be valid UTF-8.
pub open spec fn read_line(buf: Seq<u8>, from: int) -> Result<(Seq<u8>, int), RespFault> {
    match line_end(buf, from) {
        None => Err(RespFault::Incomplete),
        Some(j) => {
            let line = buf.subrange(from, j);
            if valid_utf8(line) {
                Ok((line, j + 2))
            } else {
                Err(RespFault::Utf8)
            }
        },
    }
}

/// A bulk string whose length line starts at `pos` (after the `$`).
pub open spec fn bulk_at(buf: Seq<u8>, pos: int) -> Result<(RespModel, int), RespFault> {
    match read_line(buf, pos) {
        Err(e) => Err(e),
        Ok((line, p)) => match i64_from_decimal(line) {
            None => Err(RespFault::Malformed("bulk length"@)),
            Some(n) => if n < 0 {
                Ok((RespModel::Bulk(None), p))
            } else if buf.len() < p + n + 2 {
                Err(RespFault::Incomplete)
            } else if buf[p + n] != 13 || buf[p + n + 1] != 10 {
                Err(RespFault::Malformed("missing CRLF after bulk"@))
            } else {
                Ok((RespModel::Bulk(Some(buf.subrange(p, p + n))), p + n + 2))
            },
        },
    }
}

/// The value whose type tag is at `pos`, and the position just after it.
pub open spec fn value_at(buf: Seq<u8>, pos: int) -> Result<(RespModel, int), RespFault>
    decreases buf.len() - pos, 0int, 0int,
{
    if pos < 0 || pos >= buf.len() {
        Err(RespFault::Incomplete)
    } else {
        let tag = buf[pos];
        if tag == 43 {
            match read_line(buf, pos + 1) {
                Err(e) => Err(e),
                Ok((line, p)) => Ok((RespModel::Simple(decode_utf8(line)), p)),
            }
        } else if tag == 45 {
            match read_line(buf, pos + 1) {
                Err(e) => Err(e),
                Ok((line, p)) => Ok((RespModel::Error(decode_utf8(line)), p)),
            }
        } else if tag == 58 {
            match read_line(buf, pos + 1) {
                Err(e) => Err(e),
                Ok((line, p)) => match i64_from_decimal(line) {
                    None => Err(RespFault::IntegerOverflow),
                    Some(n) => Ok((RespModel::Integer(n as int), p)),
                },
            }
        } else if tag == 36 {
            bulk_at(buf, pos + 1)
        } else if tag == 42 {
            array_at(buf, pos + 1)
        } else {
            Err(RespFault::Malformed("unknown type tag"@))
        }
    }
}

/// An array whose length line starts at `pos` (after the `*`).
pub open spec fn array_at(buf: Seq<u8>, pos: int) -> Result<(RespModel, int), RespFault>
    decreases buf.len() - pos, 2int, 0int,
{
    match read_line(buf, pos) {
        Err(e) => Err(e),
        Ok((line, p)) => match i64_from_decimal(line) {
            None => Err(RespFault::Malformed("array length"@)),
            Some(n) => if n < 0 {
                Ok((RespModel::Array(None), p))
            } else {
                proof {
                    lemma_line_end_bounds(buf, pos);
                }
                match items_at(buf, p, n as nat) {
                    Err(e) => Err(e),
                    Ok((items, q)) => Ok((RespModel::Array(Some(items)), q)),
                }
            },
        },
    }
}

/// `n` values one after the other from `pos`, and the position after the last.
pub open spec fn items_at(buf: Seq<u8>, pos: int, n: nat) -> Result<(Seq<RespModel>, int), RespFault>
    decreases buf.len() - pos, 1int, n,
{
    if n == 0 {
        Ok((Seq::empty(), pos))
    } else if pos < 0 || pos > buf.len() {
        Err(RespFault::Incomplete)
    } else {
        match value_at(buf, pos) {
            Err(e) => Err(e),
            Ok((v, q)) => if q <= pos || q > buf.len() {
                // a value always takes at least its tag byte and ends within the buffer
                Err(RespFault::Incomplete)
            } else {
                match items_at(buf, q, (n - 1) as nat) {
                    Err(e) => Err(e),
                    Ok((rest, r)) => Ok((seq![v] + rest, r)),
                }
            },
        }
    }
}

/// Where `line_end` finds a terminator, it lies within the buffer after `from`.
pub proof fn lemma_line_end_bounds(buf: Seq<u8>, from: int)
    ensures
        line_end(buf, from) matches Some(j) ==> 0 <= from <= j && j + 2 <= buf.len()
            && buf[j] == 13 && buf[j + 1] == 10,
    decreases buf.len() - from,
{
    if !(from < 0 || from + 1 >= buf.len()) && !(buf[from] == 13 && buf[from + 1] == 10) {
        lemma_line_end_bounds(buf, from + 1);
    }
}

/// The results of earlier items put in front of the result for the rest.
pub open spec fn prepend_items(
    done: Seq<RespModel>,
    rest: Result<(Seq<RespModel>, int), RespFault>,
) -> Result<(Seq<RespModel>, int), RespFault> {
    match rest {
        Ok((items, q)) => Ok((done + items, q)),
        Err(e) => Err(e),
    }
}

/// Reads the line that starts at `cursor`, which must be valid UTF-8, and
/// moves `cursor` past its CR LF.
pub fn read_line_string(buf: &[u8], cursor: &mut usize) -> (r: Result<String, RespError>)
    ensures
        match read_line(buf@, *old(cursor) as int) {
            Ok((line, p)) => r matches Ok(s) && s@ == decode_utf8(line) && *final(cursor) == p,
            Err(e) => r matches Err(err) && err.fault() == e,
        },
        r is Ok ==> *old(cursor) < *final(cursor) <= buf.len(),
{
    let start = *cursor;
    proof {
        lemma_line_end_bounds(buf@, start as int);
    }
    while buf.len() > 1 && *cursor < buf.len() - 1
        invariant
            start == *old(cursor),
            start <= *cursor,
            line_end(buf@, start as int) == line_end(buf@, *cursor as int),
        decreases buf.len() - *cursor,
    {
        if buf[*cursor] == 13 && buf[*cursor + 1] == 10 {
            let line: &[u8] = &buf[start..*cursor];
            match utf8_to_string(line) {
                None => {
                    return Err(RespError::Utf8);
                },
                Some(s) => {
                    *cursor = *cursor + 2;
                    return Ok(s);
                },
            }
        }
        *cursor = *cursor + 1;
    }
    Err(RespError::Incomplete)
}

/// The bytes of a string read by `read_line_string` are the line itself.
proof fn lemma_line_bytes(s: &str, line: Seq<u8>)
    requires
        valid_utf8(line),
        s@ == decode_utf8(line),
    ensures
        s.spec_bytes() == line,
{
    vstd::utf8::decode_utf8_encode_utf8(line);
}

fn parse_bulk(buf: &[u8], cursor: &mut usize) -> (r: Result<RespValue, RespError>)
    ensures
        match bulk_at(buf@, *old(cursor) as int) {
            Ok((m, p)) => r matches Ok(v) && v.model() == m && *final(cursor) == p,
            Err(e) => r matches Err(err) && err.fault() == e,
        },
        r is Ok ==> *old(cursor) < *final(cursor) <= buf.len(),
{
    let ghost start = *cursor as int;
    let len_str = match read_line_string(buf, cursor) {
        Ok(s) => s,
        Err(e) => return Err(e),
    };
    let ghost line = read_line(buf@, start)->Ok_0.0;
    let text: &str = len_str.as_str();
    proof {
        lemma_line_bytes(text, line);
    }
    let len = match i64_from_ascii(text.as_bytes()) {
        Some(n) => n,
        None => return Err(RespError::Malformed("bulk length")),
    };
    if len < 0 {
        return Ok(RespValue::BulkString(None));
    }
    let c = *cursor;
    if buf.len() - c < 2 || (len as u64) > ((buf.len() - c - 2) as u64) {
        return Err(RespError::Incomplete);
    }
    let n = len as usize;
    let data = Bytes::copy_from_slice(&buf[c..c + n]);
    *cursor = c + n;
    if buf[*cursor] != 13 || buf[*cursor + 1] != 10 {
        return Err(RespError::Malformed("missing CRLF after bulk"));
    }
    *cursor = *cursor + 2;
    Ok(RespValue::BulkString(Some(data)))
}

fn parse_array(buf: &[u8], cursor: &mut usize) -> (r: Result<RespValue, RespError>)
    ensures
        match array_at(buf@, *old(cursor) as int) {
            Ok((m, p)) => r matches Ok(v) && v.model() == m && *final(cursor) == p,
            Err(e) => r matches Err(err) && err.fault() == e,
        },
        r is Ok ==> *old(cursor) < *final(cursor) <= buf.len(),
    decreases buf.len() - *old(cursor), 1int,
{
    let ghost start = *cursor as int;
    let len_str = match read_line_string(buf, cursor) {
        Ok(s) => s,
        Err(e) => return Err(e),
    };
    let ghost line = read_line(buf@, start)->Ok_0.0;
    let text: &str = len_str.as_str();
    proof {
        lemma_line_bytes(text, line);
    }
    let len = match i64_from_ascii(text.as_bytes()) {
        Some(n) => n,
        None => return Err(RespError::Malformed("array length")),
    };
    if len < 0 {
        return Ok(RespValue::Array(None));
    }
    let ghost first = *cursor as int;
    let mut items: Vec<RespValue> = Vec::new();
    let mut k: i64 = 0;
    while k < len
        invariant
            0 <= k <= len,
            start == *old(cursor),
            array_at(buf@, start) == match items_at(buf@, first, len as nat) {
                Err(e) => Err(e),
                Ok((items, q)) => Ok((RespModel::Array(Some(items)), q)),
            },
            start < first <= *cursor <= buf.len(),
            items.len() == k,
            items_at(buf@, first, len as nat) == prepend_items(
                items@.map_values(|x: RespValue| x.model()),
                items_at(buf@, *cursor as int, (len - k) as nat),
            ),
        decreases len - k,
    {
        let ghost c = *cursor as int;
        let ghost done = items@.map_values(|x: RespValue| x.model());
        let item = match parse_at(buf, cursor) {
            Ok(v) => v,
            Err(e) => {
                proof {
                    assert(items_at(buf@, c, (len - k) as nat) == Err::<(Seq<RespModel>, int), RespFault>(e.fault()));
                }
                return Err(e);
            },
        };
        let ghost m = item.model();
        items.push(item);
        proof {
            assert(items@.map_values(|x: RespValue| x.model()) =~= done + seq![m]);
            match items_at(buf@, *cursor as int, (len - k - 1) as nat) {
                Ok((rest, q)) => {
                    assert(done + (seq![m] + rest) =~= (done + seq![m]) + rest);
                },
                Err(e) => {},
            }
        }
        k = k + 1;
    }
    let ghost done = items@.map_values(|x: RespValue| x.model());
    let r = RespValue::Array(Some(items));
    assert(r.model()->Array_0->Some_0 =~= done);
    Ok(r)
}

fn parse_at(buf: &[u8], cursor: &mut usize) -> (r: Result<RespValue, RespError>)
    ensures
        match value_at(buf@, *old(cursor) as int) {
            Ok((m, p)) => r matches Ok(v) && v.model() == m && *final(cursor) == p,
            Err(e) => r matches Err(err) && err.fault() == e,
        },
        r is Ok ==> *old(cursor) < *final(cursor) <= buf.len(),
    decreases buf.len() - *old(cursor), 0int,
{
    if *cursor >= buf.len() {
        return Err(RespError::Incomplete);
    }
    let tag = buf[*cursor];
    *cursor = *cursor + 1;
    if tag == 43 {
        match read_line_string(buf, cursor) {
            Ok(s) => Ok(RespValue::SimpleString(s)),
            Err(e) => Err(e),
        }
    } else if tag == 45 {
        match read_line_string(buf, cursor) {
            Ok(s) => Ok(RespValue::Error(s)),
            Err(e) => Err(e),
        }
    } else if tag == 58 {
        let ghost start = *cursor as int;
        let s = match read_line_string(buf, cursor) {
            Ok(s) => s,
            Err(e) => return Err(e),
        };
        let ghost line = read_line(buf@, start)->Ok_0.0;
        let text: &str = s.as_str();
        proof {
            lemma_line_bytes(text, line);
        }
        match i64_from_ascii(text.as_bytes()) {
            Some(n) => Ok(RespValue::Integer(n)),
            None => Err(RespError::IntegerOverflow),
        }
    } else if tag == 36 {
        parse_bulk(buf, cursor)
    } else if tag == 42 {
        parse_array(buf, cursor)
    } else {
        Err(RespError::Malformed("unknown type tag"))
    }
}

/// Parses one RESP value from the front of `buf`. On success the bytes it
/// took are removed from `buf`; on any error `buf` is left unchanged.
pub fn parse(buf: &mut BytesMut) -> (r: Result<RespValue, RespError>)
    ensures
        match value_at(bytes_mut_view(*old(buf)), 0) {
            Ok((m, k)) => r matches Ok(v) && v.model() == m
                && bytes_mut_view(*final(buf)) == bytes_mut_view(*old(buf)).skip(k),
            Err(e) => r matches Err(err) && err.fault() == e
                && bytes_mut_view(*final(buf)) == bytes_mut_view(*old(buf)),
        },
{
    let mut cursor: usize = 0;
    let value = match parse_at(&**buf, &mut cursor) {
        Ok(v) => v,
        Err(e) => return Err(e),
    };
    buf.advance(cursor);
    Ok(value)
}

} // verus!
