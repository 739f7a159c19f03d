use vstd::prelude::*;

verus! {

/// Allocates the identifiers the caller-facing handle hands out: an
/// ever-incrementing counter starting at 1, so no identifier is ever
/// reused within one engine instance. The counter's range vastly
/// exceeds any realistic number of timers; exhaustion is surfaced to
/// the caller as a fatal limit, never a silent wrap.
pub struct IdAlloc {
    pub next_id: usize,
}

impl IdAlloc {
    /// A fresh allocator whose first identifier is 1.
    pub fn new() -> (a: Self)
        ensures
            a.next_id == 1,
    {
        IdAlloc { next_id: 1 }
    }

    /// Hand out the next identifier: always the current counter value,
    /// and strictly larger than every identifier handed out before.
    pub fn fresh_id(&mut self) -> (id: usize)
        requires
            old(self).next_id < usize::MAX,
        ensures
            id == old(self).next_id,
            final(self).next_id == old(self).next_id + 1,
    {
        let id = self.next_id;
        self.next_id = self.next_id + 1;
        id
    }
}

/// The absolute target time for firing `delay` milliseconds after
/// `now`, if it fits the clock's range.
pub fn fire_time(now: u64, delay: u64) -> (target: Option<u64>)
    ensures
        target is Some <==> now + delay <= u64::MAX,
        target is Some ==> target->0 == now + delay,
{
    if delay <= u64::MAX - now {
        Some(now + delay)
    } else {
        None
    }
}

} // verus!
