use crate::buffers::{bytes_mut_view, bytes_view, put_u8};
use crate::protocol::decimal::{decimal, digits, put_decimal, put_digits};
use crate::protocol::value::{RespModel, RespValue};
use bytes::{BufMut, Bytes, BytesMut};
use vstd::prelude::*;
use vstd::utf8::encode_utf8;

verus! {

/// The line terminator of every RESP line.
pub open spec fn crlf() -> Seq<u8> {
    seq![13u8, 10u8]
}

/// The wire form of a value.
pub open spec fn encode_model(m: RespModel) -> Seq<u8>
    decreases m,
{
    match m {
        RespModel::Simple(s) => seq![43u8] + encode_utf8(s) + crlf(),
        RespModel::Error(s) => seq![45u8] + encode_utf8(s) + crlf(),
        RespModel::Integer(n) => seq![58u8] + decimal(n) + crlf(),
        RespModel::Bulk(None) => seq![36u8, 45u8, 49u8] + crlf(),
        RespModel::Bulk(Some(b)) => seq![36u8] + digits(b.len()) + crlf() + b + crlf(),
        RespModel::Array(None) => seq![42u8, 45u8, 49u8] + crlf(),
        RespModel::Array(Some(items)) => seq![42u8] + digits(items.len()) + crlf()
            + encode_items(items),
    }
}

/// The wire forms of a sequence of values, one after the other.
pub open spec fn encode_items(items: Seq<RespModel>) -> Seq<u8>
    decreases items,
{
    if items.len() == 0 {
        Seq::empty()
    } else {
        encode_model(items[0]) + encode_items(items.drop_first())
    }
}

/// Encoding a concatenation of sequences concatenates their encodings.
pub proof fn lemma_encode_items_concat(a: Seq<RespModel>, b: Seq<RespModel>)
    ensures
        encode_items(a + b) == encode_items(a) + encode_items(b),
    decreases a.len(),
{
    if a.len() == 0 {
        assert(a + b =~= b);
    } else {
        lemma_encode_items_concat(a.drop_first(), b);
        assert((a + b).drop_first() =~= a.drop_first() + b);
    }
}

/// Appends CR LF.
fn put_crlf(buf: &mut BytesMut)
    ensures
        bytes_mut_view(*final(buf)) == bytes_mut_view(*old(buf)) + crlf(),
{
    put_u8(buf, 13);
    put_u8(buf, 10);
}

fn encode_into(value: &RespValue, buf: &mut BytesMut)
    ensures
        bytes_mut_view(*final(buf)) == bytes_mut_view(*old(buf)) + encode_model(value.model()),
    decreases value,
{
    match value {
        RespValue::SimpleString(s) => {
            put_u8(buf, 43);
            buf.put_slice(s.as_str().as_bytes());
            put_crlf(buf);
        },
        RespValue::Error(s) => {
            put_u8(buf, 45);
            buf.put_slice(s.as_str().as_bytes());
            put_crlf(buf);
        },
        RespValue::Integer(n) => {
            put_u8(buf, 58);
            put_decimal(buf, *n);
            put_crlf(buf);
        },
        RespValue::BulkString(None) => {
            put_u8(buf, 36);
            put_u8(buf, 45);
            put_u8(buf, 49);
            put_crlf(buf);
        },
        RespValue::BulkString(Some(b)) => {
            let data: &[u8] = &**b;
            put_u8(buf, 36);
            put_digits(buf, data.len() as u64);
            put_crlf(buf);
            buf.put_slice(data);
            put_crlf(buf);
        },
        RespValue::Array(None) => {
            put_u8(buf, 42);
            put_u8(buf, 45);
            put_u8(buf, 49);
            put_crlf(buf);
        },
        RespValue::Array(Some(items)) => {
            let ghost start = bytes_mut_view(*buf);
            let ghost models = value.model()->Array_0->Some_0;
            put_u8(buf, 42);
            put_digits(buf, items.len() as u64);
            put_crlf(buf);
            let ghost header = bytes_mut_view(*buf);
            let mut i: usize = 0;
            while i < items.len()
                invariant
                    i <= items.len(),
                    *value == RespValue::Array(Some(*items)),
                    models.len() == items.len(),
                    forall|j: int| 0 <= j < items.len() ==> models[j] == #[trigger] items[j].model(),
                    bytes_mut_view(*buf) == header + encode_items(models.take(i as int)),
                decreases items.len() - i,
            {
                let ghost before = bytes_mut_view(*buf);
                proof {
                    assert(decreases_to!(*value => value->Array_0));
                    assert(decreases_to!(value->Array_0 => value->Array_0->Some_0));
                    assert(decreases_to!(*items => items@));
                    assert(decreases_to!(items@ => items@[i as int]));
                }
                encode_into(&items[i], buf);
                proof {
                    assert(models.take(i + 1) =~= models.take(i as int) + seq![models[i as int]]);
                    lemma_encode_items_concat(models.take(i as int), seq![models[i as int]]);
                    let one = seq![models[i as int]];
                    assert(one.drop_first() =~= Seq::<RespModel>::empty());
                    assert(encode_items(Seq::<RespModel>::empty()) == Seq::<u8>::empty());
                    assert(encode_items(one) =~= encode_model(models[i as int]));
                }
                i = i + 1;
            }
            assert(models.take(items.len() as int) =~= models);
        },
    }
}

/// Serialises a value to its RESP2 wire form.
pub fn encode(value: &RespValue) -> (out: Bytes)
    ensures
        bytes_view(out) == encode_model(value.model()),
{
    let mut buf = BytesMut::with_capacity(64);
    encode_into(value, &mut buf);
    assert(bytes_mut_view(buf) =~= encode_model(value.model()));
    buf.freeze()
}

} // verus!
