use crate::buffers::bytes_view;
use crate::command::types::Ttl;
use bytes::Bytes;
use vstd::prelude::*;

verus! {

/// A stored value and its deadline.
#[derive(Debug, Clone)]
pub struct Entry {
    pub value: Bytes,
    /// Absolute deadline (seconds since UNIX epoch) when the entry expires.
    pub expires_at: Option<u64>,
}

/// The content of an `Entry`.
pub struct EntryModel {
    pub value: Seq<u8>,
    pub expires_at: Option<u64>,
}

/// An entry with a deadline that `now` has reached is expired.
pub open spec fn expired(e: EntryModel, now: u64) -> bool {
    e.expires_at matches Some(at) && now >= at
}

/// The deadline of a span started at `now`, in whole seconds: the span's
/// whole seconds, and one second for a positive span shorter than that, so a
/// positive span always ends after `now`.
pub open spec fn deadline(ttl: Option<Ttl>, now: u64) -> Option<u64> {
    match ttl {
        Some(d) => Some((now + d.span_secs()) as u64),
        None => None,
    }
}

/// The deadline of a span started at `now` fits in a `u64`.
pub open spec fn deadline_fits(ttl: Option<Ttl>, now: u64) -> bool {
    ttl matches Some(d) ==> now + d.span_secs() <= u64::MAX
}

impl Entry {
    pub open spec fn model(&self) -> EntryModel {
        EntryModel { value: bytes_view(self.value), expires_at: self.expires_at }
    }

    /// An entry that holds `value` and, given a span, expires its whole
    /// seconds after `now` (the caller's clock, in seconds since the epoch); a
    /// positive span shorter than a second counts as one.
    pub fn new(value: Bytes, ttl: Option<Ttl>, now: u64) -> (r: Entry)
        requires
            deadline_fits(ttl, now),
        ensures
            r.model() == (EntryModel { value: bytes_view(value), expires_at: deadline(ttl, now) }),
    {
        let expires_at = match ttl {
            Some(d) => Some(now + d.deadline_secs() as u64),
            None => None,
        };
        Entry { value, expires_at }
    }

    /// Whether the deadline has been reached at `now_secs`.
    pub fn is_expired(&self, now_secs: u64) -> (r: bool)
        ensures
            r == expired(self.model(), now_secs),
    {
        match self.expires_at {
            Some(e) => now_secs >= e,
            None => false,
        }
    }
}

} // verus!
