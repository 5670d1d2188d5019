//! Length-prefixed frames: a four-byte big-endian length, then the payload.

use vstd::prelude::*;

verus! {

/// The four big-endian bytes of `n` (taken modulo 2^32).
pub open spec fn be32(n: nat) -> Seq<u8> {
    seq![
        (n / 0x1000000 % 0x100) as u8,
        (n / 0x10000 % 0x100) as u8,
        (n / 0x100 % 0x100) as u8,
        (n % 0x100) as u8,
    ]
}

/// The number that four big-endian bytes spell.
pub open spec fn be32_value(b: Seq<u8>) -> nat {
    (b[0] as nat) * 0x1000000 + (b[1] as nat) * 0x10000 + (b[2] as nat) * 0x100 + (b[3] as nat)
}

/// A payload in its frame; the length is written as a `u32`, so a payload of
/// 4 GiB or more has its length cut to the low 32 bits.
pub open spec fn frame_spec(payload: Seq<u8>) -> Seq<u8> {
    be32(payload.len() % 0x100000000) + payload
}

/// The payloads of the complete frames from `pos` on; reading stops at the
/// first frame whose length or payload runs past the end.
pub open spec fn frames_from(log: Seq<u8>, pos: int) -> Seq<Seq<u8>>
    decreases log.len() - pos,
{
    if pos < 0 || pos + 4 > log.len() {
        Seq::empty()
    } else {
        let n = be32_value(log.subrange(pos, pos + 4));
        if pos + 4 + n > log.len() {
            Seq::empty()
        } else {
            seq![log.subrange(pos + 4, pos + 4 + n)] + frames_from(log, pos + 4 + n)
        }
    }
}

/// The frames one after the other.
pub open spec fn frames_spec(payloads: Seq<Seq<u8>>) -> Seq<u8>
    decreases payloads.len(),
{
    if payloads.len() == 0 {
        Seq::empty()
    } else {
        frame_spec(payloads[0]) + frames_spec(payloads.drop_first())
    }
}

/// Frames a payload: its length as a big-endian `u32`, then its bytes.
pub fn frame(payload: &[u8]) -> (r: Vec<u8>)
    ensures
        r@ == frame_spec(payload@),
{
    let len: u64 = payload.len() as u64 % 0x100000000;
    let mut out: Vec<u8> = Vec::new();
    out.push((len / 0x1000000 % 0x100) as u8);
    out.push((len / 0x10000 % 0x100) as u8);
    out.push((len / 0x100 % 0x100) as u8);
    out.push((len % 0x100) as u8);
    let mut i: usize = 0;
    while i < payload.len()
        invariant
            i <= payload.len(),
            out@ == be32(payload@.len() % 0x100000000) + payload@.take(i as int),
        decreases payload.len() - i,
    {
        out.push(payload[i]);
        assert(payload@.take(i + 1) =~= payload@.take(i as int).push(payload@[i as int]));
        i = i + 1;
    }
    assert(payload@.take(i as int) =~= payload@);
    out
}

/// The payloads of the complete frames at the start of `log`, in order.
pub fn split_frames(log: &[u8]) -> (r: Vec<Vec<u8>>)
    ensures
        r@.map_values(|v: Vec<u8>| v@) == frames_from(log@, 0),
{
    let mut out: Vec<Vec<u8>> = Vec::new();
    let mut pos: usize = 0;
    while log.len() >= 4 && pos <= log.len() - 4
        invariant
            pos <= log.len(),
            frames_from(log@, 0) == out@.map_values(|v: Vec<u8>| v@) + frames_from(log@, pos as int),
        ensures
            frames_from(log@, pos as int) =~= Seq::<Seq<u8>>::empty(),
        decreases log.len() - pos,
    {
        let n: u64 = (log[pos] as u64) * 0x1000000 + (log[pos + 1] as u64) * 0x10000 + (log[pos + 2] as u64) * 0x100
            + (log[pos + 3] as u64);
        assert(n == be32_value(log@.subrange(pos as int, pos + 4)));
        if n > (log.len() - pos - 4) as u64 {
            break;
        }
        let start = pos + 4;
        let end = start + n as usize;
        let payload = vstd::slice::slice_to_vec(&log[start..end]);
        let ghost before = out@.map_values(|v: Vec<u8>| v@);
        out.push(payload);
        assert(out@.map_values(|v: Vec<u8>| v@) =~= before.push(log@.subrange(start as int, end as int)));
        assert(before + frames_from(log@, pos as int) =~= out@.map_values(|v: Vec<u8>| v@)
            + frames_from(log@, end as int));
        pos = end;
    }
    assert(out@.map_values(|v: Vec<u8>| v@) + Seq::<Seq<u8>>::empty() =~= out@.map_values(|v: Vec<u8>| v@));
    out
}

proof fn lemma_be32_u32(x: u32)
    by (bit_vector)
    ensures
        (x / 0x1000000 % 0x100) * 0x1000000 + (x / 0x10000 % 0x100) * 0x10000 + (x / 0x100 % 0x100)
            * 0x100 + x % 0x100 == x,
{
}

/// A length below 2^32 is read back from its four bytes.
proof fn lemma_be32(n: nat)
    requires
        n < 0x100000000,
    ensures
        be32_value(be32(n)) == n,
{
    lemma_be32_u32(n as u32);
}

/// Reading frames inside a suffix does not depend on what precedes it.
proof fn lemma_frames_shift(a: Seq<u8>, b: Seq<u8>, pos: int)
    requires
        0 <= pos,
    ensures
        frames_from(a + b, a.len() + pos) == frames_from(b, pos),
    decreases b.len() - pos,
{
    let log = a + b;
    let q = a.len() + pos;
    if pos + 4 <= b.len() {
        assert(log.subrange(q, q + 4) =~= b.subrange(pos, pos + 4));
        let n = be32_value(b.subrange(pos, pos + 4));
        if pos + 4 + n <= b.len() {
            assert(log.subrange(q + 4, q + 4 + n) =~= b.subrange(pos + 4, pos + 4 + n));
            lemma_frames_shift(a, b, pos + 4 + n);
        }
    }
}

/// Reading back frames written one after the other, followed by anything.
proof fn lemma_frames_concat(ps: Seq<Seq<u8>>, b: Seq<u8>)
    requires
        forall|i: int| 0 <= i < ps.len() ==> (#[trigger] ps[i]).len() < 0x100000000,
    ensures
        frames_from(frames_spec(ps) + b, 0) == ps + frames_from(b, 0),
    decreases ps.len(),
{
    if ps.len() == 0 {
        assert(frames_spec(ps) + b =~= b);
        assert(ps + frames_from(b, 0) =~= frames_from(b, 0));
    } else {
        let p0 = ps[0];
        let rest = ps.drop_first();
        let f0 = frame_spec(p0);
        let tail = frames_spec(rest) + b;
        let log = frames_spec(ps) + b;
        assert(log =~= f0 + tail);
        lemma_be32(p0.len());
        assert(p0.len() % 0x100000000 == p0.len());
        assert(log.subrange(0, 4) =~= be32(p0.len()));
        assert(log.subrange(4, 4 + (p0.len() as int)) =~= p0);
        lemma_frames_shift(f0, tail, 0);
        lemma_frames_concat(rest, b);
        assert(ps =~= seq![p0] + rest);
        assert(ps + frames_from(b, 0) =~= seq![p0] + (rest + frames_from(b, 0)));
    }
}

/// Replaying a log gives back the payloads appended to it, in order, and then
/// whatever the bytes after them hold; in particular a torn last write (a
/// length or payload cut short) is dropped and every complete record before
/// it is kept.
pub proof fn law_replay_reads_back_appends(payloads: Seq<Seq<u8>>, tail: Seq<u8>)
    requires
        forall|i: int| 0 <= i < payloads.len() ==> (#[trigger] payloads[i]).len() < 0x100000000,
    ensures
        frames_from(frames_spec(payloads) + tail, 0) == payloads + frames_from(tail, 0),
{
    lemma_frames_concat(payloads, tail);
}

} // verus!
