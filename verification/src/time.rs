//! Moments and spans, both counted in nanoseconds.
use vstd::prelude::*;

verus! {

/// How long `since` lies back: not at all where it lies ahead.
pub open spec fn span(now: u64, since: u64) -> u64 {
    if now >= since {
        (now - since) as u64
    } else {
        0
    }
}

pub fn elapsed(now: u64, since: u64) -> (time: u64)
    ensures
        time == span(now, since),
{
    if now >= since {
        now - since
    } else {
        0
    }
}

/// A span leads from its beginning to now. What lies ahead has none.
pub proof fn law_span_leads_to_now(now: u64, since: u64)
    ensures
        since <= now ==> since + span(now, since) == now,
        now < since ==> span(now, since) == 0,
{
}

} // verus!
