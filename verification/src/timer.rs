use vstd::prelude::*;

verus! {

/// The delivery variant a timer carries, generic over the payload types
/// the surrounding program wants delivered: `C` is the payload of a
/// callback timer (typically a closure, opaque to the engine) and `M` is
/// the notification mailbox of a periodic timer (typically the sending
/// side of a single-slot channel, equally opaque). The engine itself
/// never looks inside a payload; it only moves it around.
pub enum TimerKind<C, M> {
    /// Delivered by handing the whole timer to the consumer.
    OneShot,
    /// Delivered by running the carried action once at fire time.
    Callback(C),
    /// Re-arms itself every `period` milliseconds and notifies through
    /// its mailbox until the mailbox is detached.
    Periodic { period: u64, mailbox: M },
}

/// The unit of scheduling: an identifier (unique within one engine
/// instance), an absolute target fire time in milliseconds since the
/// epoch, and one delivery variant.
pub struct Timer<C, M> {
    pub id: usize,
    pub when: u64,
    pub kind: TimerKind<C, M>,
}

impl<C, M> Timer<C, M> {
    /// A one-shot timer due at `when`.
    pub fn normal(id: usize, when: u64) -> (t: Self)
        ensures
            t.id == id,
            t.when == when,
            t.kind is OneShot,
    {
        Timer { id, when, kind: TimerKind::OneShot }
    }

    /// A callback timer due at `when`, carrying the action `f`.
    pub fn after_func(id: usize, when: u64, f: C) -> (t: Self)
        ensures
            t.id == id,
            t.when == when,
            t.kind == TimerKind::<C, M>::Callback(f),
    {
        Timer { id, when, kind: TimerKind::Callback(f) }
    }

    /// A periodic timer first due one period after `now`, notifying
    /// through `mailbox` on every fire.
    pub fn ticker(id: usize, period: u64, mailbox: M, now: u64) -> (t: Self)
        requires
            now + period <= u64::MAX,
        ensures
            t.id == id,
            t.when == now + period,
            t.kind == (TimerKind::<C, M>::Periodic { period, mailbox }),
    {
        Timer { id, when: now + period, kind: TimerKind::Periodic { period, mailbox } }
    }

    /// True of a periodic timer.
    pub open spec fn is_periodic(self) -> bool {
        self.kind is Periodic
    }

    /// The period of a periodic timer.
    pub open spec fn spec_period(self) -> u64 {
        self.kind->period
    }

    /// The timer as it is re-armed after firing: the target moved one
    /// period forward, identifier and delivery variant unchanged.
    pub open spec fn rearmed(self) -> Self {
        Timer { when: (self.when + self.spec_period()) as u64, ..self }
    }
}

} // verus!
