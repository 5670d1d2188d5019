use crate::buffers::bytes_view;
use bytes::Bytes;
use vstd::prelude::*;
use vstd::string::StringExecFns;

verus! {

/// A RESP2 value — the universe of things that can travel on the wire.
#[derive(Debug, PartialEq, Eq)]
pub enum RespValue {
    /// `+OK\r\n`
    SimpleString(String),
    /// `-ERR message\r\n`
    Error(String),
    /// `:42\r\n`
    Integer(i64),
    /// `$5\r\nhello\r\n` or `$-1\r\n` (null)
    BulkString(Option<Bytes>),
    /// `*N\r\n<value>...` or `*-1\r\n` (null array)
    Array(Option<Vec<RespValue>>),
}

/// The mathematical content of a `RespValue`: text as characters, bulk
/// payloads as byte sequences, arrays as sequences of models.
pub enum RespModel {
    Simple(Seq<char>),
    Error(Seq<char>),
    Integer(int),
    Bulk(Option<Seq<u8>>),
    Array(Option<Seq<RespModel>>),
}

impl RespValue {
    /// The model of this value.
    pub open spec fn model(&self) -> RespModel
        decreases self,
    {
        match self {
            RespValue::SimpleString(s) => RespModel::Simple(s@),
            RespValue::Error(s) => RespModel::Error(s@),
            RespValue::Integer(n) => RespModel::Integer(*n as int),
            RespValue::BulkString(None) => RespModel::Bulk(None),
            RespValue::BulkString(Some(b)) => RespModel::Bulk(Some(bytes_view(*b))),
            RespValue::Array(None) => RespModel::Array(None),
            RespValue::Array(Some(items)) => RespModel::Array(
                Some(Seq::new(items.len() as nat, |i: int| if 0 <= i < items.len() {
                    items[i].model()
                } else {
                    RespModel::Array(None)
                })),
            ),
        }
    }
}

impl RespValue {
    /// `+OK`
    pub fn ok() -> (r: Self)
        ensures
            r.model() == RespModel::Simple("OK"@),
    {
        RespValue::SimpleString(String::from_str("OK"))
    }

    /// The null bulk string `$-1`.
    pub fn null_bulk() -> (r: Self)
        ensures
            r.model() == RespModel::Bulk(None),
    {
        RespValue::BulkString(None)
    }

    /// An error reply with the given text.
    pub fn error(msg: String) -> (r: Self)
        ensures
            r.model() == RespModel::Error(msg@),
    {
        RespValue::Error(msg)
    }
}

/// A copy of `v` with the same model.
fn clone_value(v: &RespValue) -> (r: RespValue)
    ensures
        r.model() == v.model(),
    decreases v,
{
    match v {
        RespValue::SimpleString(s) => RespValue::SimpleString(s.clone()),
        RespValue::Error(s) => RespValue::Error(s.clone()),
        RespValue::Integer(n) => RespValue::Integer(*n),
        RespValue::BulkString(None) => RespValue::BulkString(None),
        RespValue::BulkString(Some(b)) => RespValue::BulkString(Some(b.clone())),
        RespValue::Array(None) => RespValue::Array(None),
        RespValue::Array(Some(items)) => {
            let mut out: Vec<RespValue> = Vec::new();
            let mut i: usize = 0;
            while i < items.len()
                invariant
                    i <= items.len(),
                    out.len() == i,
                    *v == RespValue::Array(Some(*items)),
                    forall|j: int| 0 <= j < i ==> #[trigger] out[j].model() == items[j].model(),
                decreases items.len() - i,
            {
                proof {
                    assert(decreases_to!(*v => v->Array_0));
                    assert(decreases_to!(v->Array_0 => v->Array_0->Some_0));
                    assert(decreases_to!(*items => items@));
                    assert(decreases_to!(items@ => items@[i as int]));
                }
                out.push(clone_value(&items[i]));
                i = i + 1;
            }
            let ghost out_models = out@;
            let r = RespValue::Array(Some(out));
            assert(r.model()->Array_0->Some_0 =~= v.model()->Array_0->Some_0) by {
                assert forall|j: int| 0 <= j < items.len() implies
                    r.model()->Array_0->Some_0[j] == v.model()->Array_0->Some_0[j] by {
                    assert(out_models[j].model() == items[j].model());
                }
            }
            r
        },
    }
}

impl Clone for RespValue {
    fn clone(&self) -> (r: Self)
        ensures
            r.model() == self.model(),
    {
        clone_value(self)
    }
}

} // verus!
