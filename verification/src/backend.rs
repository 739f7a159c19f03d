use vstd::prelude::*;
use vstd::multiset::Multiset;
use vstd::arithmetic::power::pow;
use crate::timer::Timer;
use crate::timer::TimerKind;
use crate::wheel::Wheel;
use crate::wheel::mset_has_id;

verus! {

broadcast use {vstd::multiset::group_multiset_axioms, vstd::seq_lib::group_to_multiset_ensures};

/// The multiset of timers held across a whole stack of wheels.
pub open spec fn wheels_mset<C, M>(ws: Seq<Wheel<C, M>>) -> Multiset<Timer<C, M>>
    decreases ws.len(),
{
    if ws.len() == 0 {
        Multiset::empty()
    } else {
        wheels_mset(ws.drop_last()).add(ws.last().contents())
    }
}

/// Replacing one wheel exchanges exactly that wheel's timers; all
/// other levels are untouched.
pub proof fn lemma_wheels_mset_update<C, M>(ws: Seq<Wheel<C, M>>, i: int, w: Wheel<C, M>)
    requires
        0 <= i < ws.len(),
    ensures
        wheels_mset(ws.update(i, w)).add(ws[i].contents()) =~= wheels_mset(ws).add(w.contents()),
    decreases ws.len(),
{
    let ws2 = ws.update(i, w);
    assert(ws2.len() == ws.len());
    if i == ws.len() - 1 {
        assert(ws2.drop_last() =~= ws.drop_last());
        assert(ws2.last() == w);
        assert(wheels_mset(ws2) == wheels_mset(ws.drop_last()).add(w.contents()));
        assert(wheels_mset(ws) == wheels_mset(ws.drop_last()).add(ws[i].contents()));
        assert(forall|t: Timer<C, M>|
            wheels_mset(ws2).add(ws[i].contents()).count(t) == wheels_mset(ws).add(
                w.contents(),
            ).count(t));
    } else {
        let dl = ws.drop_last();
        assert(ws2.drop_last() =~= dl.update(i, w));
        assert(ws2.last() == ws.last());
        lemma_wheels_mset_update(dl, i, w);
        assert(dl[i] == ws[i]);
        assert(wheels_mset(ws2) == wheels_mset(dl.update(i, w)).add(ws.last().contents()));
        assert(wheels_mset(ws) == wheels_mset(dl).add(ws.last().contents()));
        assert forall|t: Timer<C, M>|
            wheels_mset(ws2).add(ws[i].contents()).count(t) == wheels_mset(ws).add(
                w.contents(),
            ).count(t) by {
            assert(wheels_mset(dl.update(i, w)).count(t) + dl[i].contents().count(t)
                == wheels_mset(dl).count(t) + w.contents().count(t)) by {
                assert(wheels_mset(dl.update(i, w)).add(dl[i].contents()).count(t)
                    == wheels_mset(dl).add(w.contents()).count(t));
            }
        }
    }
}

/// A timer is in the stack's multiset exactly when some level holds it.
pub proof fn lemma_wheels_mset_contains<C, M>(ws: Seq<Wheel<C, M>>, t: Timer<C, M>)
    ensures
        wheels_mset(ws).count(t) > 0 <==> exists|i: int|
            0 <= i < ws.len() && ws[i].contents().count(t) > 0,
    decreases ws.len(),
{
    if ws.len() > 0 {
        lemma_wheels_mset_contains(ws.drop_last(), t);
        if wheels_mset(ws).count(t) > 0 {
            if ws.last().contents().count(t) > 0 {
                assert(ws[ws.len() - 1].contents().count(t) > 0);
            } else {
                let i = choose|i: int|
                    0 <= i < ws.len() - 1 && ws.drop_last()[i].contents().count(t) > 0;
                assert(ws[i].contents().count(t) > 0);
            }
        }
        if exists|i: int| 0 <= i < ws.len() && ws[i].contents().count(t) > 0 {
            let i = choose|i: int| 0 <= i < ws.len() && ws[i].contents().count(t) > 0;
            if i < ws.len() - 1 {
                assert(ws.drop_last()[i].contents().count(t) > 0);
            }
        }
    }
}

/// The stack holds at least as many copies of a timer as any single
/// level does.
pub proof fn lemma_wheels_mset_le<C, M>(ws: Seq<Wheel<C, M>>, i: int, t: Timer<C, M>)
    requires
        0 <= i < ws.len(),
    ensures
        wheels_mset(ws).count(t) >= ws[i].contents().count(t),
    decreases ws.len(),
{
    if i == ws.len() - 1 {
        assert(ws.last() == ws[i]);
    } else {
        lemma_wheels_mset_le(ws.drop_last(), i, t);
        assert(ws.drop_last()[i] == ws[i]);
    }
}

/// Identifiers are unique: no timer occurs twice, and no two distinct
/// timers carry the same identifier.
pub open spec fn ids_unique<C, M>(m: Multiset<Timer<C, M>>) -> bool {
    &&& forall|t: Timer<C, M>| #[trigger] m.count(t) <= 1
    &&& forall|t1: Timer<C, M>, t2: Timer<C, M>|
        #[trigger] m.count(t1) > 0 && #[trigger] m.count(t2) > 0 && t1.id == t2.id ==> t1 == t2
}

/// Uniqueness is inherited by any sub-multiset.
pub proof fn lemma_ids_unique_le<C, M>(a: Multiset<Timer<C, M>>, b: Multiset<Timer<C, M>>)
    requires
        ids_unique(b),
        a.subset_of(b),
    ensures
        ids_unique(a),
{
}

/// Inserting a timer whose identifier is fresh keeps identifiers
/// unique.
pub proof fn lemma_ids_unique_insert<C, M>(m: Multiset<Timer<C, M>>, t: Timer<C, M>)
    requires
        ids_unique(m),
        !mset_has_id(m, t.id),
    ensures
        ids_unique(m.insert(t)),
{
    assert(m.count(t) == 0);
    assert forall|t1: Timer<C, M>, t2: Timer<C, M>|
        #[trigger] m.insert(t).count(t1) > 0 && #[trigger] m.insert(t).count(t2) > 0 && t1.id
            == t2.id implies t1 == t2 by {
        if t1 != t {
            assert(m.count(t1) > 0);
        }
        if t2 != t {
            assert(m.count(t2) > 0);
        }
        if t1 == t && t2 != t {
            assert(mset_has_id(m, t.id));
        }
        if t2 == t && t1 != t {
            assert(mset_has_id(m, t.id));
        }
    }
}

/// Splitting a multiset with unique identifiers in two: each part keeps
/// unique identifiers, and an identifier present in one part is absent
/// from the other.
pub proof fn lemma_ids_unique_split<C, M>(
    total: Multiset<Timer<C, M>>,
    a: Multiset<Timer<C, M>>,
    b: Multiset<Timer<C, M>>,
)
    requires
        ids_unique(total),
        total =~= a.add(b),
    ensures
        ids_unique(a),
        ids_unique(b),
        forall|t: Timer<C, M>| #[trigger] b.count(t) > 0 ==> !mset_has_id(a, t.id),
{
    assert(a.subset_of(total));
    assert(b.subset_of(total));
    lemma_ids_unique_le(a, total);
    lemma_ids_unique_le(b, total);
    assert forall|t: Timer<C, M>| #[trigger] b.count(t) > 0 implies !mset_has_id(a, t.id) by {
        if mset_has_id(a, t.id) {
            let t1 = choose|t1: Timer<C, M>| a.count(t1) > 0 && t1.id == t.id;
            assert(total.count(t1) > 0);
            assert(total.count(t) > 0);
            assert(t1 == t);
            assert(total.count(t) >= a.count(t) + b.count(t));
        }
    }
}

/// The scheduler's exclusive state: the stack of wheels, level 0 the
/// finest. Level `i + 1`'s bucket is as wide as a full sweep of level
/// `i`, so each level refines one bucket of the next coarser one.
pub struct BackEnd<C, M> {
    pub wheels: Vec<Wheel<C, M>>,
}

/// A control request sent from the handle to the scheduler.
pub enum Message<C, M> {
    /// Schedule this timer.
    Put(Timer<C, M>),
    /// Best-effort cancellation of the timer with this identifier.
    Del(usize),
    /// Shut the scheduler down.
    Exit,
}

/// What one wait on the control channel produced: a message, the wait
/// budget elapsing, or the channel found permanently closed (every
/// handle gone, an implicit shutdown).
pub enum Event<C, M> {
    Received(Message<C, M>),
    TimedOut,
    Disconnected,
}

/// What one scheduler step decided: whether the run loop must exit,
/// and the timers now due for dispatch.
pub struct StepOutcome<C, M> {
    pub stop: bool,
    pub fired: Vec<Timer<C, M>>,
}

/// The pending timers after a control message is applied and before
/// the tick drains any: a put adds its timer, a delete drops whatever
/// carries the identifier, everything else changes nothing.
pub open spec fn after_message<C, M>(
    m: Multiset<Timer<C, M>>,
    event: Event<C, M>,
) -> Multiset<Timer<C, M>> {
    match event {
        Event::Received(Message::Put(t)) => m.insert(t),
        Event::Received(Message::Del(id)) => m.filter(|t: Timer<C, M>| t.id != id),
        _ => m,
    }
}

/// Whether an event ends the scheduler's run loop: an explicit
/// shutdown message, or the control channel permanently closed.
pub open spec fn stops<C, M>(event: Event<C, M>) -> bool {
    ||| event is Disconnected
    ||| event matches Event::Received(Message::Exit)
}

/// Rejected configurations: a hierarchy needs at least one level and
/// at least one bucket per wheel.
#[derive(Debug, PartialEq, Eq, Structural, Clone, Copy)]
pub enum ConfigError {
    ZeroWheelLevel,
    ZeroWheelSize,
}

/// A timer cascading down to a finer wheel failed to fit there: the
/// hierarchy's geometry invariant is broken and the scheduler must
/// stop rather than silently drop timers.
#[derive(Debug, PartialEq, Eq, Structural, Clone, Copy)]
pub struct CascadeError;

impl<C, M> BackEnd<C, M> {
    /// All timers pending anywhere in the hierarchy.
    pub open spec fn contents(self) -> Multiset<Timer<C, M>> {
        wheels_mset(self.wheels@)
    }

    /// Bucket count shared by every level.
    pub open spec fn wheel_size(self) -> int {
        self.wheels@[0].size()
    }

    /// The coarsest level's bucket width: the largest step any single
    /// cursor advance can take.
    pub open spec fn max_interval(self) -> int {
        self.wheels@[self.wheels@.len() - 1].interval as int
    }

    /// Structural soundness of the stack: at least one well-formed
    /// level, level indices in order, one shared bucket count, and each
    /// level's bucket width the full sweep of the previous one.
    pub open spec fn geometry_wf(self) -> bool {
        &&& 1 <= self.wheels@.len()
        &&& forall|i: int| 0 <= i < self.wheels@.len() ==> (#[trigger] self.wheels@[i]).wf()
        &&& forall|i: int|
            0 <= i < self.wheels@.len() ==> (#[trigger] self.wheels@[i]).index == i
        &&& forall|i: int|
            0 <= i < self.wheels@.len() ==> (#[trigger] self.wheels@[i]).size()
                == self.wheels@[0].size()
        &&& forall|i: int|
            0 <= i < self.wheels@.len() - 1 ==> (#[trigger] self.wheels@[i + 1].interval) as int
                == self.wheels@[i].interval * self.wheels@[0].size()
    }

    /// Well-formed hierarchy: sound structure and pending timers with
    /// unique identifiers.
    pub open spec fn wf(self) -> bool {
        &&& self.geometry_wf()
        &&& ids_unique(self.contents())
    }

    /// Same geometry: as many levels, each with the same shape.
    pub open spec fn same_shape(self, other: Self) -> bool {
        &&& self.wheels@.len() == other.wheels@.len()
        &&& forall|i: int|
            0 <= i < self.wheels@.len() ==> (#[trigger] self.wheels@[i]).same_shape(
                other.wheels@[i],
            )
    }

    /// Same geometry and same cursor positions: only bucket contents
    /// may differ.
    pub open spec fn same_alignment(self, other: Self) -> bool {
        &&& self.wheels@.len() == other.wheels@.len()
        &&& forall|i: int|
            0 <= i < self.wheels@.len() ==> (#[trigger] self.wheels@[i]).same_shape(
                other.wheels@[i],
            ) && self.wheels@[i].cur_slot == other.wheels@[i].cur_slot
                && self.wheels@[i].next_ts == other.wheels@[i].next_ts
    }

    /// Replacing one level with an equally shaped, well-formed wheel
    /// keeps the stack's structure sound.
    proof fn lemma_geometry_after_update(pre: Self, post: Self, i: int)
        requires
            pre.geometry_wf(),
            0 <= i < pre.wheels@.len(),
            post.wheels@ == pre.wheels@.update(i, post.wheels@[i]),
            post.wheels@[i].wf(),
            post.wheels@[i].same_shape(pre.wheels@[i]),
        ensures
            post.geometry_wf(),
    {
        assert(post.wheels@.len() == pre.wheels@.len());
        assert forall|j: int| 0 <= j < post.wheels@.len() implies (#[trigger] post.wheels@[j]).wf()
            && post.wheels@[j].index == j && post.wheels@[j].size() == post.wheels@[0].size() by {
            assert(pre.wheels@[j].wf());
            assert(pre.wheels@[j].index == j);
            assert(pre.wheels@[j].size() == pre.wheels@[0].size());
        }
        assert forall|j: int| 0 <= j < post.wheels@.len() - 1 implies (#[trigger] post.wheels@[j
            + 1].interval) as int == post.wheels@[j].interval * post.wheels@[0].size() by {
            assert((pre.wheels@[j + 1].interval) as int == pre.wheels@[j].interval
                * pre.wheels@[0].size());
        }
    }

    /// After one level gained exactly the timer `t`, the whole stack
    /// gained exactly `t`.
    proof fn lemma_one_wheel_grew(self, pre: Self, i: int, t: Timer<C, M>)
        requires
            0 <= i < pre.wheels@.len(),
            self.wheels@ == pre.wheels@.update(i, self.wheels@[i]),
            self.wheels@[i].contents() =~= pre.wheels@[i].contents().insert(t),
        ensures
            self.contents() =~= pre.contents().insert(t),
    {
        lemma_wheels_mset_update(pre.wheels@, i, self.wheels@[i]);
        assert forall|x: Timer<C, M>| self.contents().count(x) == pre.contents().insert(t).count(
            x,
        ) by {
            assert(wheels_mset(pre.wheels@.update(i, self.wheels@[i])).add(
                pre.wheels@[i].contents(),
            ).count(x) == wheels_mset(pre.wheels@).add(self.wheels@[i].contents()).count(x));
        }
    }

    /// Bucket widths grow with the level.
    pub proof fn lemma_interval_monotone(self, i: int, j: int)
        requires
            self.wf(),
            0 <= i <= j < self.wheels@.len(),
        ensures
            self.wheels@[i].interval <= self.wheels@[j].interval,
        decreases j - i,
    {
        if i < j {
            self.lemma_interval_monotone(i, j - 1);
            assert(self.wheels@[(j - 1) + 1].interval as int == self.wheels@[j - 1].interval
                * self.wheels@[0].size());
            assert(self.wheels@[j - 1].interval * self.wheels@[0].size() >= self.wheels@[j
                - 1].interval) by (nonlinear_arith)
                requires
                    self.wheels@[j - 1].interval >= 1,
                    self.wheels@[0].size() >= 1,
            ;
        }
    }

    /// Build a hierarchy of `wheel_lv` levels of `wheel_size` buckets
    /// each, the finest `interval` milliseconds wide, every level's
    /// window starting at `now`. A zero level count or bucket count is
    /// rejected outright; nothing is partially constructed.
    pub fn new(interval: u64, wheel_size: usize, wheel_lv: usize, now: u64) -> (r: Result<
        Self,
        ConfigError,
    >)
        requires
            1 <= interval,
            wheel_size <= usize::MAX / 2,
            wheel_lv >= 1 ==> now + interval * pow(wheel_size as int, (wheel_lv - 1) as nat)
                <= u64::MAX,
        ensures
            wheel_lv == 0 ==> r == Result::<Self, ConfigError>::Err(ConfigError::ZeroWheelLevel),
            wheel_lv >= 1 && wheel_size == 0 ==> r == Result::<Self, ConfigError>::Err(
                ConfigError::ZeroWheelSize,
            ),
            wheel_lv >= 1 && wheel_size >= 1 ==> r is Ok,
            r is Ok ==> ({
                let b = r->Ok_0;
                &&& b.wf()
                &&& b.wheels@.len() == wheel_lv
                &&& b.wheels@[0].interval == interval
                &&& b.wheel_size() == wheel_size
                &&& b.contents() =~= Multiset::<Timer<C, M>>::empty()
                &&& forall|i: int|
                    0 <= i < wheel_lv ==> (#[trigger] b.wheels@[i]).window_start() == now
                        && b.wheels@[i].cur_slot == 0
            }),
    {
        if wheel_lv == 0 {
            return Err(ConfigError::ZeroWheelLevel);
        }
        if wheel_size == 0 {
            return Err(ConfigError::ZeroWheelSize);
        }
        let mut wheels: Vec<Wheel<C, M>> = Vec::new();
        let mut cur_interval: u64 = interval;
        let mut i: usize = 0;
        proof {
            vstd::arithmetic::power::lemma_pow0(wheel_size as int);
        }
        while i < wheel_lv
            invariant
                1 <= interval,
                1 <= wheel_size <= usize::MAX / 2,
                1 <= wheel_lv,
                i <= wheel_lv,
                wheels@.len() == i,
                now + interval * pow(wheel_size as int, (wheel_lv - 1) as nat) <= u64::MAX,
                cur_interval as int == interval * pow(
                    wheel_size as int,
                    (if i == 0 {
                        0int
                    } else {
                        i - 1
                    }) as nat,
                ),
                wheels_mset(wheels@) =~= Multiset::<Timer<C, M>>::empty(),
                forall|j: int|
                    0 <= j < i ==> (#[trigger] wheels@[j]).wf() && wheels@[j].index == j
                        && wheels@[j].size() == wheel_size && wheels@[j].window_start() == now
                        && wheels@[j].cur_slot == 0 && wheels@[j].contents()
                        =~= Multiset::<Timer<C, M>>::empty(),
                forall|j: int|
                    0 <= j < i - 1 ==> (#[trigger] wheels@[j + 1].interval) as int == wheels@[j].interval
                        * wheel_size,
                i >= 1 ==> wheels@[i - 1].interval == cur_interval,
                wheels@.len() >= 1 ==> wheels@[0].interval == interval,
            decreases wheel_lv - i,
        {
            proof {
                vstd::arithmetic::power::lemma_pow0(wheel_size as int);
                vstd::arithmetic::power::lemma_pow_positive(wheel_size as int, i as nat);
                Self::lemma_level_interval_fits(
                    interval as int,
                    wheel_size as int,
                    wheel_lv as int,
                    i as int,
                    now,
                );
            }
            if i > 0 {
                cur_interval = cur_interval * (wheel_size as u64);
            }
            proof {
                assert(cur_interval as int == interval * pow(wheel_size as int, i as nat));
                assert(cur_interval >= 1) by (nonlinear_arith)
                    requires
                        cur_interval as int == interval * pow(wheel_size as int, i as nat),
                        interval >= 1,
                        pow(wheel_size as int, i as nat) >= 1,
                ;
            }
            let w = Wheel::new(i, now, cur_interval, wheel_size);
            let ghost pre = wheels@;
            wheels.push(w);
            proof {
                assert(wheels@.drop_last() =~= pre);
                assert(wheels@.last() == w);
            }
            i = i + 1;
        }
        Ok(BackEnd { wheels })
    }

    /// Level `i`'s bucket width, `interval * wheel_size^i`, stays within
    /// the configured bound, as does the width one level up.
    proof fn lemma_level_interval_fits(interval: int, wheel_size: int, wheel_lv: int, i: int, now: u64)
        requires
            1 <= interval,
            1 <= wheel_size,
            0 <= i < wheel_lv,
            now + interval * pow(wheel_size, (wheel_lv - 1) as nat) <= u64::MAX,
        ensures
            interval * pow(wheel_size, i as nat) <= u64::MAX - now,
            i >= 1 ==> interval * pow(wheel_size, (i - 1) as nat) * wheel_size == interval * pow(
                wheel_size,
                i as nat,
            ),
    {
        vstd::arithmetic::power::lemma_pow_positive(wheel_size, i as nat);
        vstd::arithmetic::power::lemma_pow_positive(wheel_size, (wheel_lv - 1) as nat);
        if i <= wheel_lv - 1 {
            vstd::arithmetic::power::lemma_pow_increases(
                wheel_size as nat,
                i as nat,
                (wheel_lv - 1) as nat,
            );
        }
        assert(interval * pow(wheel_size, i as nat) <= interval * pow(
            wheel_size,
            (wheel_lv - 1) as nat,
        )) by (nonlinear_arith)
            requires
                1 <= interval,
                pow(wheel_size, i as nat) <= pow(wheel_size, (wheel_lv - 1) as nat),
        ;
        if i >= 1 {
            assert(pow(wheel_size, (i - 1) as nat) * wheel_size == pow(wheel_size, i as nat)) by {
                vstd::arithmetic::power::lemma_pow1(wheel_size);
                vstd::arithmetic::power::lemma_pow_adds(wheel_size, (i - 1) as nat, 1nat);
            }
            assert(interval * pow(wheel_size, (i - 1) as nat) * wheel_size == interval * (pow(
                wheel_size,
                (i - 1) as nat,
            ) * wheel_size)) by (nonlinear_arith);
        }
    }

    /// Place a timer in the finest level whose range covers its target
    /// time. A target beyond every level's range goes into the coarsest
    /// level's current bucket instead — the overflow fallback, which
    /// keeps the timer (it may fire early, as soon as that bucket is
    /// next processed) rather than rejecting it; the return value
    /// surfaces that degraded case.
    pub fn put_timer(&mut self, timer: Timer<C, M>) -> (overflowed: bool)
        requires
            old(self).wf(),
            !mset_has_id(old(self).contents(), timer.id),
        ensures
            final(self).wf(),
            final(self).same_alignment(*old(self)),
            final(self).contents() =~= old(self).contents().insert(timer),
            overflowed == forall|i: int|
                0 <= i < old(self).wheels@.len() ==> !(#[trigger] old(self).wheels@[i]).accepts(
                    timer.when,
                ),
            !overflowed ==> exists|i: int|
                0 <= i < old(self).wheels@.len() && (#[trigger] old(self).wheels@[i]).accepts(
                    timer.when,
                ) && (forall|j: int| 0 <= j < i ==> !old(self).wheels@[j].accepts(timer.when))
                    && final(self).wheels@[i].contents() =~= old(self).wheels@[i].contents().insert(
                    timer,
                ) && (forall|j: int|
                    0 <= j < old(self).wheels@.len() && j != i ==> final(self).wheels@[j] == old(
                        self,
                    ).wheels@[j]),
            overflowed ==> final(self).wheels@[old(self).wheels@.len() - 1].contents() =~= old(
                self,
            ).wheels@[old(self).wheels@.len() - 1].contents().insert(timer) && (forall|j: int|
                0 <= j < old(self).wheels@.len() - 1 ==> final(self).wheels@[j] == old(
                    self,
                ).wheels@[j]),
    {
        let len = self.wheels.len();
        let mut t = timer;
        let mut i: usize = 0;
        while i < len
            invariant
                self.wheels@ == old(self).wheels@,
                old(self).wf(),
                !mset_has_id(old(self).contents(), timer.id),
                len == self.wheels@.len(),
                i <= len,
                t == timer,
                forall|j: int| 0 <= j < i ==> !(#[trigger] self.wheels@[j]).accepts(timer.when),
            decreases len - i,
        {
            match self.wheels[i].put_timer(t) {
                Ok(()) => {
                    proof {
                        self.lemma_one_wheel_grew(*old(self), i as int, timer);
                        lemma_ids_unique_insert(old(self).contents(), timer);
                        Self::lemma_geometry_after_update(*old(self), *self, i as int);
                    }
                    return false;
                },
                Err(e) => {
                    t = e;
                },
            }
            i = i + 1;
        }
        let last = len - 1;
        self.wheels[last].put_in_current_slot(t);
        proof {
            self.lemma_one_wheel_grew(*old(self), last as int, timer);
            lemma_ids_unique_insert(old(self).contents(), timer);
            Self::lemma_geometry_after_update(*old(self), *self, last as int);
        }
        true
    }

    /// Best-effort cancellation: remove the timer carrying `id` from
    /// whichever level holds it. A timer already cascaded out into the
    /// dispatch path is not found here and still fires; a stale
    /// cancellation is silently a no-op.
    pub fn del_timer(&mut self, id: usize) -> (found: bool)
        requires
            old(self).wf(),
        ensures
            final(self).wf(),
            final(self).same_alignment(*old(self)),
            found == mset_has_id(old(self).contents(), id),
            !found ==> final(self).wheels@ == old(self).wheels@,
            final(self).contents() =~= old(self).contents().filter(
                |t: Timer<C, M>| t.id != id,
            ),
    {
        let len = self.wheels.len();
        let mut i: usize = 0;
        while i < len
            invariant
                self.wheels@ == old(self).wheels@,
                old(self).wf(),
                len == self.wheels@.len(),
                i <= len,
                forall|j: int|
                    0 <= j < i ==> !mset_has_id((#[trigger] self.wheels@[j]).contents(), id),
            decreases len - i,
        {
            let removed = self.wheels[i].remove(id);
            match removed {
                Some(t) => {
                    proof {
                        lemma_wheels_mset_update(old(self).wheels@, i as int, self.wheels@[i as int]);
                        lemma_wheels_mset_le(old(self).wheels@, i as int, t);
                        assert(old(self).contents().count(t) > 0);
                        assert(mset_has_id(old(self).contents(), id));
                        assert forall|x: Timer<C, M>|
                            self.contents().count(x) == old(self).contents().filter(
                                |t0: Timer<C, M>| t0.id != id,
                            ).count(x) by {
                            assert(wheels_mset(old(self).wheels@.update(
                                i as int,
                                self.wheels@[i as int],
                            )).add(old(self).wheels@[i as int].contents()).count(x)
                                == wheels_mset(old(self).wheels@).add(
                                self.wheels@[i as int].contents(),
                            ).count(x));
                            if x.id == id && x != t {
                                assert(old(self).contents().count(x) == 0) by {
                                    if old(self).contents().count(x) > 0 {
                                        assert(old(self).contents().count(t) > 0);
                                    }
                                }
                            }
                        }
                        assert(self.contents().subset_of(old(self).contents()));
                        lemma_ids_unique_le(self.contents(), old(self).contents());
                        Self::lemma_geometry_after_update(*old(self), *self, i as int);
                    }
                    return true;
                },
                None => {},
            }
            i = i + 1;
        }
        proof {
            assert forall|x: Timer<C, M>| old(self).contents().count(x) > 0 implies x.id != id by {
                lemma_wheels_mset_contains(old(self).wheels@, x);
                let j = choose|j: int|
                    0 <= j < old(self).wheels@.len() && old(self).wheels@[j].contents().count(x)
                        > 0;
                assert(!mset_has_id(self.wheels@[j].contents(), id));
            }
            assert(old(self).contents() =~= old(self).contents().filter(
                |t0: Timer<C, M>| t0.id != id,
            ));
        }
        false
    }

    /// Whether any level holds a timer carrying `id`.
    pub fn contains_id(&self, id: usize) -> (found: bool)
        requires
            self.wf(),
        ensures
            found == mset_has_id(self.contents(), id),
    {
        let len = self.wheels.len();
        let mut i: usize = 0;
        while i < len
            invariant
                self.wf(),
                len == self.wheels@.len(),
                i <= len,
                forall|j: int|
                    0 <= j < i ==> !mset_has_id((#[trigger] self.wheels@[j]).contents(), id),
            decreases len - i,
        {
            if self.wheels[i].contains_id(id) {
                proof {
                    let t = choose|t: Timer<C, M>|
                        self.wheels@[i as int].contents().count(t) > 0 && t.id == id;
                    lemma_wheels_mset_le(self.wheels@, i as int, t);
                }
                return true;
            }
            i = i + 1;
        }
        proof {
            assert forall|x: Timer<C, M>| self.contents().count(x) > 0 implies x.id != id by {
                lemma_wheels_mset_contains(self.wheels@, x);
                let j = choose|j: int|
                    0 <= j < self.wheels@.len() && self.wheels@[j].contents().count(x) > 0;
                assert(!mset_has_id(self.wheels@[j].contents(), id));
            }
        }
        false
    }

    /// One full cascading tick. Levels are processed from coarsest to
    /// finest: the timers drained from a coarser level are re-inserted
    /// into the next finer one — refining their bucket at its finer
    /// resolution — and the finer level is then caught up to `now` and
    /// drained in turn. What level 0 finally releases is due at full
    /// resolution and is returned for dispatch.
    ///
    /// No timer is lost or invented, and every returned timer's target
    /// time has already passed. A timer cascading downward that does
    /// not fit in the finer wheel is a broken hierarchy invariant: the
    /// tick stops with an error (and then holds no more timers than
    /// before) instead of silently dropping timers. That cannot happen
    /// as long as no level has fallen a full sweep behind `now`, as the
    /// conditional success clause states.
    pub fn check_wheel(&mut self, now: u64) -> (r: Result<Vec<Timer<C, M>>, CascadeError>)
        requires
            old(self).wf(),
            now + old(self).max_interval() <= u64::MAX,
        ensures
            final(self).wf(),
            final(self).same_shape(*old(self)),
            r is Ok ==> old(self).contents() =~= final(self).contents().add(
                r->Ok_0@.to_multiset(),
            ),
            r is Ok ==> forall|idx: int|
                0 <= idx < r->Ok_0@.len() ==> (#[trigger] r->Ok_0@[idx]).when < now,
            r is Ok ==> final(self).wheels@[0].next_ts >= now,
            r is Ok ==> exists|k: nat|
                final(self).wheels@[0].advanced_from(old(self).wheels@[0], k, now)
                    && final(self).wheels@[0].drained_through(old(self).wheels@[0], k),
            r is Err ==> final(self).contents().subset_of(old(self).contents()),
            (forall|i: int|
                0 <= i < old(self).wheels@.len() ==> now <= (#[trigger] old(
                    self,
                ).wheels@[i]).window_start() + old(self).wheels@[i].horizon()) ==> r is Ok,
    {
        let len = self.wheels.len();
        let mut carried: Vec<Timer<C, M>> = Vec::new();
        let mut lvl: usize = len;
        while lvl > 0
            invariant
                old(self).wf(),
                now + old(self).max_interval() <= u64::MAX,
                lvl <= len,
                len == self.wheels@.len(),
                self.wf(),
                self.same_shape(*old(self)),
                old(self).contents() =~= self.contents().add(carried@.to_multiset()),
                forall|idx: int| 0 <= idx < carried@.len() ==> (#[trigger] carried@[idx]).when < now,
                forall|i: int|
                    lvl <= i < len ==> (#[trigger] self.wheels@[i]).next_ts >= now,
                forall|i: int| 0 <= i < lvl ==> self.wheels@[i] == old(self).wheels@[i],
                lvl == 0 ==> exists|k: nat|
                    self.wheels@[0].advanced_from(old(self).wheels@[0], k, now)
                        && self.wheels@[0].drained_through(old(self).wheels@[0], k),
            decreases lvl,
        {
            lvl = lvl - 1;
            while carried.len() > 0
                invariant
                    old(self).wf(),
                    lvl < len,
                    len == self.wheels@.len(),
                    self.wf(),
                    self.same_shape(*old(self)),
                    old(self).contents() =~= self.contents().add(carried@.to_multiset()),
                    forall|idx: int|
                        0 <= idx < carried@.len() ==> (#[trigger] carried@[idx]).when < now,
                    forall|i: int|
                        lvl < i < len ==> (#[trigger] self.wheels@[i]).next_ts >= now,
                    forall|i: int| 0 <= i < lvl ==> self.wheels@[i] == old(self).wheels@[i],
                    self.wheels@[lvl as int].cur_slot == old(self).wheels@[lvl as int].cur_slot,
                    self.wheels@[lvl as int].next_ts == old(self).wheels@[lvl as int].next_ts,
                decreases carried@.len(),
            {
                let ghost carried_pre = carried@;
                let t = carried.pop().unwrap();
                proof {
                    assert(carried_pre.drop_last() =~= carried_pre.remove(
                        carried_pre.len() - 1,
                    ));
                    assert(carried_pre.contains(t));
                    assert(carried_pre.to_multiset().count(t) > 0);
                    assert(carried@.to_multiset() == carried_pre.to_multiset().remove(t));
                    lemma_ids_unique_split(
                        old(self).contents(),
                        self.contents(),
                        carried_pre.to_multiset(),
                    );
                    assert(!mset_has_id(self.contents(), t.id));
                }
                let ghost mid = *self;
                match self.wheels[lvl].put_timer(t) {
                    Ok(()) => {
                        proof {
                            self.lemma_one_wheel_grew(mid, lvl as int, t);
                            Self::lemma_geometry_after_update(mid, *self, lvl as int);
                            assert(self.contents().subset_of(old(self).contents()));
                            lemma_ids_unique_le(self.contents(), old(self).contents());
                            assert(old(self).contents() =~= self.contents().add(
                                carried@.to_multiset(),
                            ));
                        }
                    },
                    Err(_lost) => {
                        proof {
                            assert(!mid.wheels@[lvl as int].accepts(t.when));
                            assert(t.when < now);
                            assert(now > old(self).wheels@[lvl as int].window_start() + old(
                                self,
                            ).wheels@[lvl as int].horizon());
                            assert(self.wheels@ =~= mid.wheels@);
                            assert(self.contents() == mid.contents());
                            assert forall|x: Timer<C, M>|
                                self.contents().count(x) <= old(self).contents().count(x) by {
                                assert(old(self).contents().count(x) == self.contents().count(x)
                                    + carried_pre.to_multiset().count(x));
                            }
                        }
                        return Err(CascadeError);
                    },
                }
            }
            proof {
                self.lemma_interval_monotone(lvl as int, len - 1);
                assert(self.wheels@[len - 1].interval == old(self).wheels@[len - 1].interval);
                assert(now + self.wheels@[lvl as int].interval <= u64::MAX);
            }
            let ghost mid2 = *self;
            let newly = self.wheels[lvl].check_timer(now);
            proof {
                lemma_wheels_mset_update(mid2.wheels@, lvl as int, self.wheels@[lvl as int]);
                assert forall|x: Timer<C, M>|
                    mid2.contents().count(x) == self.contents().add(newly@.to_multiset()).count(
                        x,
                    ) by {
                    assert(wheels_mset(mid2.wheels@.update(lvl as int, self.wheels@[lvl as int])).add(
                        mid2.wheels@[lvl as int].contents(),
                    ).count(x) == wheels_mset(mid2.wheels@).add(
                        self.wheels@[lvl as int].contents(),
                    ).count(x));
                }
                assert(carried@.to_multiset() =~= Multiset::<Timer<C, M>>::empty()) by {
                    vstd::multiset::lemma_multiset_empty_len(carried@.to_multiset());
                }
                assert(old(self).contents() =~= self.contents().add(newly@.to_multiset()));
                Self::lemma_geometry_after_update(mid2, *self, lvl as int);
                assert(self.contents().subset_of(old(self).contents()));
                lemma_ids_unique_le(self.contents(), old(self).contents());
                if lvl == 0 {
                    let k = choose|k: nat|
                        self.wheels@[0].advanced_from(mid2.wheels@[0], k, now)
                            && self.wheels@[0].drained_through(mid2.wheels@[0], k);
                    self.wheels@[0].lemma_catchup_transfers(
                        mid2.wheels@[0],
                        old(self).wheels@[0],
                        k,
                        now,
                    );
                }
            }
            carried = newly;
        }
        Ok(carried)
    }

    /// One iteration of the scheduler's decision logic, the state
    /// machine the run loop repeats: apply the event — schedule on
    /// `Put`, cancel on `Del`, stop on `Exit` or on a closed control
    /// channel, nothing on a timeout — and, unless stopping, run one
    /// full cascading tick and hand back what came due. The run loop
    /// around it only waits on the channel and dispatches what this
    /// returns.
    pub fn step(&mut self, event: Event<C, M>, now: u64) -> (r: Result<
        StepOutcome<C, M>,
        CascadeError,
    >)
        requires
            old(self).wf(),
            now + old(self).max_interval() <= u64::MAX,
            event matches Event::Received(Message::Put(t)) ==> !mset_has_id(
                old(self).contents(),
                t.id,
            ),
        ensures
            final(self).wf(),
            final(self).same_shape(*old(self)),
            r is Ok ==> r->Ok_0.stop == stops(event),
            r is Ok && stops(event) ==> final(self).wheels@ == old(self).wheels@
                && r->Ok_0.fired@.len() == 0,
            r is Ok && !stops(event) ==> after_message(old(self).contents(), event)
                =~= final(self).contents().add(r->Ok_0.fired@.to_multiset()),
            r is Ok ==> forall|idx: int|
                0 <= idx < r->Ok_0.fired@.len() ==> (#[trigger] r->Ok_0.fired@[idx]).when < now,
            r is Ok && !stops(event) ==> final(self).wheels@[0].next_ts >= now,
            r is Ok && !stops(event) ==> exists|k: nat|
                final(self).wheels@[0].advanced_from(old(self).wheels@[0], k, now)
                    && final(self).wheels@[0].drained_through(old(self).wheels@[0], k),
            r is Err ==> final(self).contents().subset_of(
                after_message(old(self).contents(), event),
            ),
            (forall|i: int|
                0 <= i < old(self).wheels@.len() ==> now <= (#[trigger] old(
                    self,
                ).wheels@[i]).window_start() + old(self).wheels@[i].horizon()) ==> r is Ok,
    {
        match event {
            Event::Received(Message::Exit) => Ok(StepOutcome { stop: true, fired: Vec::new() }),
            Event::Disconnected => Ok(StepOutcome { stop: true, fired: Vec::new() }),
            Event::Received(Message::Put(t)) => {
                self.put_timer(t);
                let ghost midb = *self;
                proof {
                    self.lemma_alignment_keeps_budget(*old(self));
                }
                match self.check_wheel(now) {
                    Ok(fired) => {
                        proof {
                            Self::lemma_catchup_vs_earlier(*self, midb, *old(self), now);
                        }
                        Ok(StepOutcome { stop: false, fired })
                    },
                    Err(e) => Err(e),
                }
            },
            Event::Received(Message::Del(id)) => {
                self.del_timer(id);
                let ghost midb = *self;
                proof {
                    self.lemma_alignment_keeps_budget(*old(self));
                }
                match self.check_wheel(now) {
                    Ok(fired) => {
                        proof {
                            Self::lemma_catchup_vs_earlier(*self, midb, *old(self), now);
                        }
                        Ok(StepOutcome { stop: false, fired })
                    },
                    Err(e) => Err(e),
                }
            },
            Event::TimedOut => {
                match self.check_wheel(now) {
                    Ok(fired) => Ok(StepOutcome { stop: false, fired }),
                    Err(e) => Err(e),
                }
            },
        }
    }

    /// A catch-up relation of level 0 against an aligned intermediate
    /// hierarchy — the state right after a control message was applied
    /// — holds equally against the hierarchy the message arrived at.
    proof fn lemma_catchup_vs_earlier(post: Self, mid: Self, pre: Self, now: u64)
        requires
            1 <= mid.wheels@.len(),
            1 <= pre.wheels@.len(),
            mid.same_alignment(pre),
            exists|k: nat|
                post.wheels@[0].advanced_from(mid.wheels@[0], k, now)
                    && post.wheels@[0].drained_through(mid.wheels@[0], k),
        ensures
            exists|k: nat|
                post.wheels@[0].advanced_from(pre.wheels@[0], k, now)
                    && post.wheels@[0].drained_through(pre.wheels@[0], k),
    {
        let k = choose|k: nat|
            post.wheels@[0].advanced_from(mid.wheels@[0], k, now)
                && post.wheels@[0].drained_through(mid.wheels@[0], k);
        post.wheels@[0].lemma_catchup_transfers(mid.wheels@[0], pre.wheels@[0], k, now);
    }

    /// A hierarchy aligned with another keeps its wait budget and its
    /// per-level catch-up margins: the coarsest bucket width and every
    /// level's window are unchanged.
    proof fn lemma_alignment_keeps_budget(self, pre: Self)
        requires
            self.same_alignment(pre),
            1 <= self.wheels@.len(),
        ensures
            self.max_interval() == pre.max_interval(),
            forall|i: int|
                0 <= i < self.wheels@.len() ==> (#[trigger] self.wheels@[i]).window_start()
                    == pre.wheels@[i].window_start() && self.wheels@[i].horizon()
                    == pre.wheels@[i].horizon(),
    {
    }

    /// Decide a fired periodic timer's future from the outcome of its
    /// non-blocking notification: if its mailbox is detached the series
    /// ends and the timer is dropped for good; otherwise — whether the
    /// notification was taken or the previous one was still unread —
    /// the timer re-arms one period later and is rescheduled.
    pub fn requeue_ticker(&mut self, timer: Timer<C, M>, detached: bool) -> (kept: bool)
        requires
            old(self).wf(),
            timer.is_periodic(),
            !detached ==> timer.when + timer.spec_period() <= u64::MAX,
            !detached ==> !mset_has_id(old(self).contents(), timer.id),
        ensures
            final(self).wf(),
            final(self).same_alignment(*old(self)),
            kept == !detached,
            detached ==> final(self).wheels@ == old(self).wheels@,
            !detached ==> final(self).contents() =~= old(self).contents().insert(
                timer.rearmed(),
            ),
    {
        if detached {
            return false;
        }
        let Timer { id, when, kind } = timer;
        match kind {
            TimerKind::Periodic { period, mailbox } => {
                let t2 = Timer {
                    id,
                    when: when + period,
                    kind: TimerKind::Periodic { period, mailbox },
                };
                proof {
                    assert(t2 == timer.rearmed());
                }
                self.put_timer(t2);
                true
            },
            TimerKind::OneShot => {
                proof {
                    assert(false);
                }
                false
            },
            TimerKind::Callback(_action) => {
                proof {
                    assert(false);
                }
                false
            },
        }
    }

    /// How long the scheduler may wait before level 0 next needs to
    /// advance: zero if that moment has already passed.
    pub fn calc_wait_timeout(&self, now: u64) -> (wait: u64)
        requires
            self.wf(),
        ensures
            wait as int == if self.wheels@[0].next_ts <= now {
                0int
            } else {
                self.wheels@[0].next_ts - now
            },
    {
        if self.wheels[0].next_ts <= now {
            0
        } else {
            self.wheels[0].next_ts - now
        }
    }
}

/// A timer whose identifier is absent from the pending timers before a
/// tick — cancelled strictly before its due tick, or never scheduled —
/// is not among the timers the tick fires, and its identifier is still
/// absent afterwards: a timer cancelled in time never fires.
///
/// `before` and `after` are the pending timers around any operation
/// whose conservation clause says `before` is `after` plus `fired`,
/// as `check_wheel` and `step` ensure.
pub proof fn lemma_cancelled_timer_never_fires<C, M>(
    before: Multiset<Timer<C, M>>,
    after: Multiset<Timer<C, M>>,
    fired: Seq<Timer<C, M>>,
    id: usize,
)
    requires
        !mset_has_id(before, id),
        before =~= after.add(fired.to_multiset()),
    ensures
        forall|i: int| 0 <= i < fired.len() ==> (#[trigger] fired[i]).id != id,
        !mset_has_id(after, id),
{
    assert forall|i: int| 0 <= i < fired.len() implies (#[trigger] fired[i]).id != id by {
        assert(fired.contains(fired[i]));
        assert(fired.to_multiset().count(fired[i]) > 0);
        assert(before.count(fired[i]) > 0);
    }
    if mset_has_id(after, id) {
        let t = choose|t: Timer<C, M>| after.count(t) > 0 && t.id == id;
        assert(before.count(t) > 0);
    }
}

/// The timers one tick fires carry pairwise distinct identifiers, and
/// each was pending before the tick: no duplicated and no invented
/// firings.
///
/// `before` and `after` are the pending timers around any operation
/// whose conservation clause says `before` is `after` plus `fired`,
/// as `check_wheel` and `step` ensure; identifier uniqueness is part
/// of the hierarchy's well-formedness.
pub proof fn lemma_fired_ids_distinct<C, M>(
    before: Multiset<Timer<C, M>>,
    after: Multiset<Timer<C, M>>,
    fired: Seq<Timer<C, M>>,
)
    requires
        ids_unique(before),
        before =~= after.add(fired.to_multiset()),
    ensures
        forall|i: int, j: int|
            0 <= i < fired.len() && 0 <= j < fired.len() && i != j ==> (#[trigger] fired[i]).id
                != (#[trigger] fired[j]).id,
        forall|i: int| 0 <= i < fired.len() ==> before.count(#[trigger] fired[i]) > 0,
{
    assert forall|i: int| 0 <= i < fired.len() implies before.count(#[trigger] fired[i]) > 0 by {
        assert(fired.contains(fired[i]));
        assert(fired.to_multiset().count(fired[i]) > 0);
    }
    assert forall|i: int, j: int|
        0 <= i < fired.len() && 0 <= j < fired.len() && i != j implies (#[trigger] fired[i]).id
        != (#[trigger] fired[j]).id by {
        if fired[i].id == fired[j].id {
            assert(before.count(fired[i]) > 0);
            assert(before.count(fired[j]) > 0);
            assert(fired[i] == fired[j]);
            let s2 = fired.remove(j);
            assert(s2.to_multiset() == fired.to_multiset().remove(fired[j]));
            if i < j {
                assert(s2[i] == fired[i]);
            } else {
                assert(s2[i - 1] == fired[i]);
            }
            assert(s2.contains(fired[i]));
            assert(s2.to_multiset().count(fired[i]) > 0);
            assert(fired.to_multiset().count(fired[i]) >= 2);
            assert(before.count(fired[i]) >= 2);
        }
    }
}

/// Relies on `std::time::SystemTime::now` and `duration_since`: the
/// time elapsed since the Unix epoch, in whole milliseconds (zero in
/// the degenerate case of a clock reading before the epoch). The
/// result depends on the machine's clock, so nothing is promised of
/// it.
#[verifier::external_body]
fn system_clock_ms() -> u64 {
    match std::time::SystemTime::now().duration_since(std::time::UNIX_EPOCH) {
        Ok(d) => d.as_millis() as u64,
        Err(_) => 0,
    }
}

/// The current time as whole milliseconds since the Unix epoch, from
/// the system clock. Nothing is promised of the value: every function
/// of the engine takes the current time as an argument and is verified
/// for every value of it; only the loop around the engine reads the
/// clock.
pub fn unix_now_ms() -> u64 {
    system_clock_ms()
}

} // verus!
