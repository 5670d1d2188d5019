//! What a connection does with the bytes it has buffered: the decisions of the
//! per-connection loop, apart from its reads and writes.

use crate::buffers::{bytes_mut_view, bytes_view};
use crate::command::parse::{command_of, parse_command};
use crate::command::types::{command_fault_message, owned};
use crate::persistence::record::{record_of, WalRecord};
use crate::protocol::decode::{parse, value_at};
use crate::protocol::encode::{encode, encode_model};
use crate::protocol::laws::{
    all_wire_safe, encode_all, law_parse_inverts_encode, law_prefix_is_incomplete, wire_safe,
};
use crate::protocol::error::{resp_fault_message, RespError, RespFault};
use crate::protocol::value::{RespModel, RespValue};
use crate::store::apply::{apply_fits, apply_spec};
use crate::store::apply::Keyspace;
use crate::store::keyspace::{pairs_map, Pairs, Store};
use bytes::{Bytes, BytesMut};
use vstd::prelude::*;
use vstd::string::StringExecFns;

verus! {

/// What the connection loop does next.
pub enum ConnStep {
    /// Write these bytes to the client.
    Reply(Bytes),
    /// The buffer holds no complete frame: read more from the client.
    ReadMore,
    /// The command's arithmetic would leave its range at this time (a deadline
    /// past `u64::MAX`); nothing was changed.
    OutOfRange,
}

/// The error reply `ERR <text>`.
pub open spec fn err_reply(text: Seq<char>) -> RespModel {
    RespModel::Error("ERR "@ + text)
}

fn err_value(text: String) -> (r: RespValue)
    ensures
        r.model() == err_reply(text@),
{
    let mut s = String::from_str("ERR ");
    s.append(text.as_str());
    RespValue::error(s)
}

/// The reply of a read-only replica to a write.
pub open spec fn readonly_reply() -> RespModel {
    RespModel::Error("READONLY You can't write against a read only replica."@)
}

/// A step of the connection loop, with its reply as bytes.
pub enum StepModel {
    Reply(Seq<u8>),
    ReadMore,
    OutOfRange,
}

impl ConnStep {
    pub open spec fn model(&self) -> StepModel {
        match self {
            ConnStep::Reply(out) => StepModel::Reply(bytes_view(*out)),
            ConnStep::ReadMore => StepModel::ReadMore,
            ConnStep::OutOfRange => StepModel::OutOfRange,
        }
    }
}

/// The connection's next step on the buffered bytes `buf`, where the store
/// holds the pairs `s`, at time `now`: the step, the bytes left buffered, and
/// the keyspace after it.
pub open spec fn step_spec(buf: Seq<u8>, s: Pairs, now: u64, read_only: bool) -> (
    StepModel,
    Seq<u8>,
    Keyspace,
) {
    let m = pairs_map(s);
    match value_at(buf, 0) {
        Err(RespFault::Incomplete) => (StepModel::ReadMore, buf, m),
        Err(f) => (
            StepModel::Reply(encode_model(err_reply(resp_fault_message(f)))),
            Seq::empty(),
            m,
        ),
        Ok((v, k)) => {
            let rest = buf.skip(k);
            match command_of(v) {
                Err(cf) => (
                    StepModel::Reply(encode_model(err_reply(command_fault_message(cf)))),
                    rest,
                    m,
                ),
                Ok(c) => if read_only && record_of(c) is Some {
                    (StepModel::Reply(encode_model(readonly_reply())), rest, m)
                } else if apply_fits(s, c, now) {
                    (
                        StepModel::Reply(encode_model(apply_spec(s, c, now).1)),
                        rest,
                        apply_spec(s, c, now).0,
                    )
                } else {
                    (StepModel::OutOfRange, rest, m)
                },
            }
        },
    }
}

/// Handles the frame at the front of `buf`, if a whole one is there: a
/// command is run against `store` at time `now` and its reply returned; on a
/// read-only replica (`read_only`) a write is refused with `READONLY` and
/// changes nothing; a value that is no command is answered with `ERR` and its
/// reason; a malformed frame is answered with `ERR` and the buffer is dropped.
pub fn handle_buffered(buf: &mut BytesMut, store: &mut Store, now: u64, read_only: bool) -> (r:
    ConnStep)
    requires
        old(store).wf(),
    ensures
        final(store).wf(),
        (r.model(), bytes_mut_view(*final(buf)), final(store)@) == step_spec(
            bytes_mut_view(*old(buf)),
            old(store).pairs(),
            now,
            read_only,
        ),
{
    proof {
        store.lemma_view();
    }
    match parse(buf) {
        Ok(value) => {
            let response = match parse_command(value) {
                Ok(cmd) => {
                    if read_only && WalRecord::from_command(&cmd).is_some() {
                        let refusal = RespValue::error(
                            owned("READONLY You can't write against a read only replica."),
                        );
                        return ConnStep::Reply(encode(&refusal));
                    }
                    if !store.fits(&cmd, now) {
                        return ConnStep::OutOfRange;
                    }
                    store.apply(&cmd, now)
                },
                Err(e) => err_value(e.message()),
            };
            ConnStep::Reply(encode(&response))
        },
        Err(RespError::Incomplete) => ConnStep::ReadMore,
        Err(other) => {
            let err = err_value(other.message());
            buf.clear();
            ConnStep::Reply(encode(&err))
        },
    }
}


/// Requests are answered in order, however reads cut the stream. With the
/// first `n` bytes of the encodings of the requests `vs` buffered, the next
/// step waits for more bytes, changing nothing, until the first request has
/// fully arrived; then it answers that request exactly as it would answer it
/// alone, and leaves the rest of the stream buffered, so the step after it
/// starts on the next request. (For values whose simple strings and errors
/// hold no CR LF.)
pub proof fn law_step_answers_first_request(
    vs: Seq<RespValue>,
    n: int,
    s: Pairs,
    now: u64,
    read_only: bool,
)
    requires
        all_wire_safe(vs),
        0 <= n <= encode_all(vs).len(),
    ensures
        vs.len() == 0 || n < encode_model(vs[0].model()).len() ==> step_spec(
            encode_all(vs).take(n),
            s,
            now,
            read_only,
        ) == (StepModel::ReadMore, encode_all(vs).take(n), pairs_map(s)),
        vs.len() > 0 && n >= encode_model(vs[0].model()).len() ==> {
            let e0 = encode_model(vs[0].model());
            let alone = step_spec(e0, s, now, read_only);
            &&& alone.1 == Seq::<u8>::empty()
            &&& step_spec(encode_all(vs).take(n), s, now, read_only) == (
                alone.0,
                encode_all(vs.drop_first()).take(n - e0.len()),
                alone.2,
            )
        },
{
    let e = encode_all(vs);
    if vs.len() == 0 {
        assert(e.take(n) =~= Seq::<u8>::empty());
    } else {
        let v0 = vs[0];
        let e0 = encode_model(v0.model());
        let et = encode_all(vs.drop_first());
        assert(e == e0 + et);
        assert(wire_safe(v0.model()));
        if n < e0.len() {
            assert(e.take(n) =~= e0.take(n));
            law_prefix_is_incomplete(v0, n);
        } else {
            let m = n - e0.len();
            let buf = e.take(n);
            assert(buf =~= e0 + et.take(m));
            assert(e0 + Seq::<u8>::empty() =~= e0);
            law_parse_inverts_encode(v0, et.take(m));
            law_parse_inverts_encode(v0, Seq::<u8>::empty());
            assert(buf.skip(e0.len() as int) =~= et.take(m));
            assert(e0.skip(e0.len() as int) =~= Seq::<u8>::empty());
        }
    }
}

} // verus!
