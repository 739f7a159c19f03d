use vstd::prelude::*;
use vstd::multiset::Multiset;
use crate::timer::Timer;

verus! {

broadcast use {vstd::multiset::group_multiset_axioms, vstd::seq_lib::group_to_multiset_ensures};

/// The multiset of timers held across a sequence of slots.
pub open spec fn slots_mset<C, M>(ss: Seq<Vec<Timer<C, M>>>) -> Multiset<Timer<C, M>>
    decreases ss.len(),
{
    if ss.len() == 0 {
        Multiset::empty()
    } else {
        slots_mset(ss.drop_last()).add(ss.last()@.to_multiset())
    }
}

/// Replacing one slot exchanges exactly that slot's timers; all other
/// timers are untouched.
pub proof fn lemma_slots_mset_update<C, M>(ss: Seq<Vec<Timer<C, M>>>, i: int, v: Vec<Timer<C, M>>)
    requires
        0 <= i < ss.len(),
    ensures
        slots_mset(ss.update(i, v)).add(ss[i]@.to_multiset()) =~= slots_mset(ss).add(
            v@.to_multiset(),
        ),
    decreases ss.len(),
{
    let ss2 = ss.update(i, v);
    assert(ss2.len() == ss.len());
    if i == ss.len() - 1 {
        assert(ss2.drop_last() =~= ss.drop_last());
        assert(ss2.last() == v);
        assert(slots_mset(ss2) == slots_mset(ss.drop_last()).add(v@.to_multiset()));
        assert(slots_mset(ss) == slots_mset(ss.drop_last()).add(ss[i]@.to_multiset()));
        assert(forall|t: Timer<C, M>|
            slots_mset(ss2).add(ss[i]@.to_multiset()).count(t) == slots_mset(ss).add(
                v@.to_multiset(),
            ).count(t));
    } else {
        let dl = ss.drop_last();
        assert(ss2.drop_last() =~= dl.update(i, v));
        assert(ss2.last() == ss.last());
        lemma_slots_mset_update(dl, i, v);
        assert(dl[i] == ss[i]);
        assert(slots_mset(ss2) == slots_mset(dl.update(i, v)).add(ss.last()@.to_multiset()));
        assert(slots_mset(ss) == slots_mset(dl).add(ss.last()@.to_multiset()));
        assert forall|t: Timer<C, M>|
            slots_mset(ss2).add(ss[i]@.to_multiset()).count(t) == slots_mset(ss).add(
                v@.to_multiset(),
            ).count(t) by {
            assert(slots_mset(dl.update(i, v)).count(t) + dl[i]@.to_multiset().count(t)
                == slots_mset(dl).count(t) + v@.to_multiset().count(t)) by {
                assert(slots_mset(dl.update(i, v)).add(dl[i]@.to_multiset()).count(t)
                    == slots_mset(dl).add(v@.to_multiset()).count(t));
            }
        }
    }
}

/// A timer is in the slots' multiset exactly when some slot holds it.
pub proof fn lemma_slots_mset_contains<C, M>(ss: Seq<Vec<Timer<C, M>>>, t: Timer<C, M>)
    ensures
        slots_mset(ss).count(t) > 0 <==> exists|i: int| 0 <= i < ss.len() && ss[i]@.contains(t),
    decreases ss.len(),
{
    if ss.len() > 0 {
        lemma_slots_mset_contains(ss.drop_last(), t);
        if slots_mset(ss).count(t) > 0 {
            if ss.last()@.to_multiset().count(t) > 0 {
                assert(ss[ss.len() - 1]@.contains(t));
            } else {
                let i = choose|i: int| 0 <= i < ss.len() - 1 && ss.drop_last()[i]@.contains(t);
                assert(ss[i]@.contains(t));
            }
        }
        if exists|i: int| 0 <= i < ss.len() && ss[i]@.contains(t) {
            let i = choose|i: int| 0 <= i < ss.len() && ss[i]@.contains(t);
            if i == ss.len() - 1 {
                assert(ss.last()@.to_multiset().count(t) > 0);
            } else {
                assert(ss.drop_last()[i]@.contains(t));
            }
        }
    }
}

/// Whether some timer in `m` carries the identifier `id`.
pub open spec fn mset_has_id<C, M>(m: Multiset<Timer<C, M>>, id: usize) -> bool {
    exists|t: Timer<C, M>| m.count(t) > 0 && t.id == id
}

/// One resolution level of the hierarchy: a ring of `slots` time buckets,
/// each `interval` milliseconds wide, a cursor marking the bucket whose
/// window contains the wheel's notion of "now", and the timestamp
/// `next_ts` at which the cursor will next advance.
pub struct Wheel<C, M> {
    /// Position of this wheel within the hierarchy (0 is finest).
    pub index: usize,
    /// The ring of buckets; each bucket holds the timers scheduled for
    /// its time window.
    pub slots: Vec<Vec<Timer<C, M>>>,
    /// The bucket whose window contains the wheel's current time.
    pub cur_slot: usize,
    /// When the cursor will next advance; the current window is
    /// `[next_ts - interval, next_ts)`.
    pub next_ts: u64,
    /// Width of one bucket in milliseconds.
    pub interval: u64,
}

impl<C, M> Wheel<C, M> {
    /// Number of buckets in the ring.
    pub open spec fn size(self) -> int {
        self.slots@.len() as int
    }

    /// Start of the current bucket's window.
    pub open spec fn window_start(self) -> int {
        self.next_ts - self.interval
    }

    /// How far past `window_start` this wheel can address: one full
    /// sweep of the ring.
    pub open spec fn horizon(self) -> int {
        self.size() * self.interval
    }

    /// All timers currently held by this wheel.
    pub open spec fn contents(self) -> Multiset<Timer<C, M>> {
        slots_mset(self.slots@)
    }

    /// Structural well-formedness: a nonempty ring of positive-width
    /// buckets, the cursor inside it, and a window start that does not
    /// underflow. The ring size is bounded so slot arithmetic cannot
    /// overflow.
    pub open spec fn wf(self) -> bool {
        &&& 1 <= self.interval
        &&& 1 <= self.slots@.len() <= usize::MAX as int / 2
        &&& (self.cur_slot as int) < self.slots@.len()
        &&& self.interval <= self.next_ts
    }

    /// Whether a timer due at `when` falls within this wheel's
    /// addressable range: anything up to one full sweep past the start
    /// of the current window (earlier targets are clamped to the
    /// nearest future bucket, so they are always addressable).
    pub open spec fn accepts(self, when: u64) -> bool {
        when < self.window_start() + self.horizon()
    }

    /// Offset, in buckets ahead of the cursor, where a timer due at
    /// `when` belongs: at least one bucket ahead, and one past the
    /// bucket whose window contains `when` otherwise.
    pub open spec fn spec_offset(self, when: u64) -> int {
        if when <= self.window_start() {
            1
        } else {
            (when - self.window_start()) / (self.interval as int) + 1
        }
    }

    /// The bucket a timer due at `when` is stored in.
    pub open spec fn spec_pos(self, when: u64) -> int {
        (self.cur_slot + self.spec_offset(when)) % self.size()
    }

    /// Same ring geometry: level index, bucket width and bucket count.
    pub open spec fn same_shape(self, other: Self) -> bool {
        &&& self.index == other.index
        &&& self.interval == other.interval
        &&& self.slots@.len() == other.slots@.len()
    }

    /// A fresh wheel whose current window starts at `now`, with `size`
    /// empty buckets of `interval` milliseconds each.
    pub fn new(index: usize, now: u64, interval: u64, size: usize) -> (w: Self)
        requires
            1 <= interval,
            1 <= size <= usize::MAX / 2,
            now + interval <= u64::MAX,
        ensures
            w.wf(),
            w.index == index,
            w.interval == interval,
            w.size() == size,
            w.cur_slot == 0,
            w.next_ts == now + interval,
            w.window_start() == now,
            w.contents() =~= Multiset::<Timer<C, M>>::empty(),
    {
        let mut slots: Vec<Vec<Timer<C, M>>> = Vec::new();
        let mut i: usize = 0;
        while i < size
            invariant
                i <= size,
                slots@.len() == i,
                slots_mset(slots@) =~= Multiset::<Timer<C, M>>::empty(),
            decreases size - i,
        {
            let ghost pre = slots@;
            slots.push(Vec::new());
            proof {
                assert(slots@.drop_last() =~= pre);
                assert(slots@.last()@ =~= Seq::<Timer<C, M>>::empty());
                assert(slots@.last()@.to_multiset() =~= Multiset::<Timer<C, M>>::empty()) by {
                    vstd::multiset::lemma_multiset_empty_len(slots@.last()@.to_multiset());
                }
            }
            i = i + 1;
        }
        Wheel { index, slots, cur_slot: 0, next_ts: now + interval, interval }
    }

    /// Start of the current window, as a timestamp.
    pub fn cur_ts(&self) -> (ts: u64)
        requires
            self.wf(),
        ensures
            ts == self.window_start(),
    {
        self.next_ts - self.interval
    }

    /// If the current window has fully elapsed at `now`, move the cursor
    /// one bucket forward (wrapping) and push the next-advance timestamp
    /// one interval ahead, atomically; otherwise change nothing. Callers
    /// must repeat until no advance is due, so several elapsed intervals
    /// are all accounted for.
    pub fn try_forward(&mut self, now: u64) -> (advanced: bool)
        requires
            old(self).wf(),
            now + old(self).interval <= u64::MAX,
        ensures
            final(self).wf(),
            final(self).same_shape(*old(self)),
            final(self).slots@ == old(self).slots@,
            advanced == (old(self).next_ts < now),
            advanced ==> final(self).cur_slot == (old(self).cur_slot + 1) % old(self).size()
                && final(self).next_ts == old(self).next_ts + old(self).interval,
            !advanced ==> *final(self) == *old(self),
    {
        if self.next_ts < now {
            self.cur_slot = (self.cur_slot + 1) % self.slots.len();
            self.next_ts = self.next_ts + self.interval;
            true
        } else {
            false
        }
    }

    /// The bucket for a timer due at `when`, relative to the current
    /// window: targets at or before the window start are treated as
    /// immediately due and placed one bucket ahead of the cursor;
    /// targets beyond one full sweep are rejected, since they belong in
    /// a coarser wheel.
    pub fn calc_timer_pos(&self, when: u64) -> (r: Result<usize, ()>)
        requires
            self.wf(),
        ensures
            r is Ok <==> self.accepts(when),
            r is Ok ==> r->Ok_0 == self.spec_pos(when) && r->Ok_0 < self.size(),
            r is Ok && when > self.window_start() ==> self.window_start() + self.spec_offset(when)
                * self.interval <= when + self.interval,
    {
        let cur_ts = self.cur_ts();
        let size = self.slots.len();
        if when <= cur_ts {
            proof {
                assert(self.horizon() >= 1) by (nonlinear_arith)
                    requires
                        self.size() >= 1,
                        self.interval >= 1,
                        self.horizon() == self.size() * self.interval,
                ;
                vstd::arithmetic::div_mod::lemma_mod_division_less_than_divisor(
                    self.cur_slot + 1,
                    self.size(),
                );
            }
            return Ok((self.cur_slot + 1) % size);
        }
        let q = (when - cur_ts) / self.interval;
        proof {
            let d = when - self.window_start();
            let iv = self.interval as int;
            vstd::arithmetic::div_mod::lemma_fundamental_div_mod(d, iv);
            vstd::arithmetic::div_mod::lemma_mod_division_less_than_divisor(d, iv);
            if d / iv >= self.size() {
                assert(d >= self.size() * iv) by (nonlinear_arith)
                    requires
                        d == iv * (d / iv) + d % iv,
                        d % iv >= 0,
                        d / iv >= self.size(),
                        iv >= 1,
                ;
            } else {
                assert(d < self.size() * iv) by (nonlinear_arith)
                    requires
                        d == iv * (d / iv) + d % iv,
                        d % iv < iv,
                        d / iv <= self.size() - 1,
                        iv >= 1,
                ;
            }
        }
        if q >= size as u64 {
            return Err(());
        }
        let pos = (q as usize) + 1;
        proof {
            vstd::arithmetic::div_mod::lemma_mod_division_less_than_divisor(
                self.cur_slot + pos,
                self.size(),
            );
            let d = when - self.window_start();
            let iv = self.interval as int;
            assert((d / iv + 1) * iv <= d + iv) by (nonlinear_arith)
                requires
                    d == iv * (d / iv) + d % iv,
                    d % iv >= 0,
                    iv >= 1,
            ;
        }
        Ok((self.cur_slot + pos) % size)
    }

    /// Insert `timer` into the bucket for its target time, or hand it
    /// back unplaced when the target lies beyond this wheel's range.
    pub fn put_timer(&mut self, timer: Timer<C, M>) -> (r: Result<(), Timer<C, M>>)
        requires
            old(self).wf(),
        ensures
            final(self).wf(),
            final(self).same_shape(*old(self)),
            final(self).cur_slot == old(self).cur_slot,
            final(self).next_ts == old(self).next_ts,
            r is Ok <==> old(self).accepts(timer.when),
            r is Err ==> *final(self) == *old(self) && r->Err_0 == timer,
            r is Ok ==> final(self).contents() =~= old(self).contents().insert(timer),
            r is Ok ==> final(self).slots@[old(self).spec_pos(timer.when)]@ == old(
                self,
            ).slots@[old(self).spec_pos(timer.when)]@.push(timer),
            r is Ok ==> forall|j: int|
                0 <= j < old(self).size() && j != old(self).spec_pos(timer.when)
                    ==> final(self).slots@[j] == old(self).slots@[j],
    {
        match self.calc_timer_pos(timer.when) {
            Ok(pos) => {
                let ghost t = timer;
                self.slots[pos].push(timer);
                proof {
                    self.lemma_one_slot_grew(*old(self), pos as int, t);
                }
                Ok(())
            },
            Err(_) => Err(timer),
        }
    }

    /// Insert `timer` into the bucket currently under the cursor,
    /// regardless of its target time. This is the overflow fallback for
    /// targets beyond the whole hierarchy's horizon: delivery is kept,
    /// precision is not.
    pub fn put_in_current_slot(&mut self, timer: Timer<C, M>)
        requires
            old(self).wf(),
        ensures
            final(self).wf(),
            final(self).same_shape(*old(self)),
            final(self).cur_slot == old(self).cur_slot,
            final(self).next_ts == old(self).next_ts,
            final(self).contents() =~= old(self).contents().insert(timer),
    {
        let cur = self.cur_slot;
        let ghost t = timer;
        self.slots[cur].push(timer);
        proof {
            self.lemma_one_slot_grew(*old(self), cur as int, t);
        }
    }

    /// The wheel `self` is the wheel `pre` after the cursor advanced
    /// `k` times while catching up to `now`: the next-advance timestamp
    /// moved `k` intervals forward, the cursor wrapped `k` buckets
    /// around the ring, and every advance but the last was overdue.
    pub open spec fn advanced_from(self, pre: Self, k: nat, now: u64) -> bool {
        &&& self.next_ts == pre.next_ts + k * pre.interval
        &&& self.cur_slot == (pre.cur_slot + k) % pre.size()
        &&& (k > 0 ==> pre.next_ts + (k - 1) * pre.interval < now)
    }

    /// Every bucket the cursor passed on its way from `pre` — the
    /// `j`-th advance lands on bucket `(pre.cur_slot + j) % size`,
    /// whose window then starts `j` intervals after `pre`'s — is left
    /// holding only timers due strictly after the moment it was
    /// passed: nothing that had become due stays behind.
    pub open spec fn drained_through(self, pre: Self, k: nat) -> bool {
        forall|j: nat, idx: int|
            1 <= j <= k && 0 <= idx < self.slots@[(pre.cur_slot + j) % pre.size()]@.len()
                ==> (#[trigger] self.slots@[(pre.cur_slot + j) % pre.size()]@[idx]).when
                > pre.window_start() + j * pre.interval
    }

    /// The advance and drain relations only read the starting wheel's
    /// cursor position and geometry, so they transfer between any two
    /// starting wheels that agree on those — such as a wheel before
    /// and after timers were inserted.
    pub proof fn lemma_catchup_transfers(self, a: Self, b: Self, k: nat, now: u64)
        requires
            a.cur_slot == b.cur_slot,
            a.next_ts == b.next_ts,
            a.interval == b.interval,
            a.size() == b.size(),
            self.advanced_from(a, k, now),
            self.drained_through(a, k),
        ensures
            self.advanced_from(b, k, now),
            self.drained_through(b, k),
    {
        assert forall|j: nat, idx: int|
            1 <= j <= k && 0 <= idx < self.slots@[(b.cur_slot + j) % b.size()]@.len() implies (
        #[trigger] self.slots@[(b.cur_slot + j) % b.size()]@[idx]).when > b.window_start() + j
            * b.interval by {
            assert(self.slots@[(a.cur_slot + j) % a.size()]@[idx].when > a.window_start() + j
                * a.interval);
        }
    }

    /// Catch the wheel up to `now`: advance the cursor until the
    /// current window contains `now`, and as each bucket passes under
    /// the cursor, take out every timer in it that is due (target at or
    /// before the window start) — those are returned. Timers placed in
    /// a bucket by a coarse rounding stay until their own window
    /// arrives.
    ///
    /// No timer is lost or invented: the wheel's old contents are
    /// exactly the new contents plus the returned timers, and every
    /// returned timer was due strictly before `now`.
    pub fn check_timer(&mut self, now: u64) -> (fired: Vec<Timer<C, M>>)
        requires
            old(self).wf(),
            now + old(self).interval <= u64::MAX,
        ensures
            final(self).wf(),
            final(self).same_shape(*old(self)),
            final(self).next_ts >= now,
            final(self).next_ts >= old(self).next_ts,
            old(self).contents() =~= final(self).contents().add(fired@.to_multiset()),
            forall|i: int|
                0 <= i < fired@.len() ==> (#[trigger] fired@[i]).when < now && fired@[i].when
                    <= final(self).window_start(),
            exists|k: nat|
                final(self).advanced_from(*old(self), k, now) && final(self).drained_through(
                    *old(self),
                    k,
                ),
            final(self).next_ts != old(self).next_ts ==> forall|j: int|
                0 <= j < final(self).slots@[final(self).cur_slot as int]@.len()
                    ==> (#[trigger] final(self).slots@[final(self).cur_slot as int]@[j]).when
                    > final(self).window_start(),
    {
        let mut fired: Vec<Timer<C, M>> = Vec::new();
        let ghost pre = *old(self);
        let ghost mut k: nat = 0;
        proof {
            vstd::arithmetic::div_mod::lemma_small_mod(
                pre.cur_slot as nat,
                pre.slots@.len() as nat,
            );
            assert(self.advanced_from(pre, 0, now));
        }
        while self.next_ts < now
            invariant
                self.wf(),
                self.same_shape(pre),
                now + self.interval <= u64::MAX,
                self.advanced_from(pre, k, now),
                self.drained_through(pre, k),
                self.next_ts >= pre.next_ts,
                pre.contents() =~= self.contents().add(fired@.to_multiset()),
                forall|i: int|
                    0 <= i < fired@.len() ==> (#[trigger] fired@[i]).when < now && fired@[i].when
                        <= self.window_start(),
                k > 0 ==> forall|j: int|
                    0 <= j < self.slots@[self.cur_slot as int]@.len()
                        ==> (#[trigger] self.slots@[self.cur_slot as int]@[j]).when
                        > self.window_start(),
                k == 0 ==> *self == pre,
            decreases (if self.next_ts < now {
                now - self.next_ts
            } else {
                0int
            }),
        {
            let ghost before = *self;
            let advanced = self.try_forward(now);
            proof {
                assert(advanced);
                assert(self.next_ts == pre.next_ts + (k + 1) * pre.interval) by (nonlinear_arith)
                    requires
                        self.next_ts == before.next_ts + pre.interval,
                        before.next_ts == pre.next_ts + k * pre.interval,
                ;
                assert(self.cur_slot == (pre.cur_slot + (k + 1)) % pre.size()) by {
                    vstd::arithmetic::div_mod::lemma_add_mod_noop_right(
                        1,
                        pre.cur_slot + k,
                        pre.size(),
                    );
                    assert((before.cur_slot + 1) % pre.size() == (1 + (pre.cur_slot + k)
                        % pre.size()) % pre.size());
                }
                assert(pre.next_ts + k * pre.interval < now);
                k = k + 1;
            }
            let cur = self.cur_slot;
            let cur_ts = self.cur_ts();
            let ghost mid = *self;
            let mut kept: Vec<Timer<C, M>> = Vec::new();
            let mut newly: Vec<Timer<C, M>> = Vec::new();
            while self.slots[cur].len() > 0
                invariant
                    self.wf(),
                    (cur as int) < self.slots@.len(),
                    cur == mid.cur_slot,
                    cur_ts == mid.window_start(),
                    self.cur_slot == mid.cur_slot,
                    self.next_ts == mid.next_ts,
                    self.interval == mid.interval,
                    self.index == mid.index,
                    self.slots@.len() == mid.slots@.len(),
                    self.slots@ == mid.slots@.update(cur as int, self.slots@[cur as int]),
                    mid.slots@[cur as int]@.to_multiset() =~= self.slots@[cur as int]@.to_multiset().add(
                        kept@.to_multiset(),
                    ).add(newly@.to_multiset()),
                    forall|i: int|
                        0 <= i < kept@.len() ==> (#[trigger] kept@[i]).when > cur_ts,
                    forall|i: int|
                        0 <= i < newly@.len() ==> (#[trigger] newly@[i]).when <= cur_ts,
                decreases self.slots@[cur as int]@.len(),
            {
                let ghost sv = self.slots@[cur as int]@;
                let t = self.slots[cur].pop().unwrap();
                proof {
                    assert(sv.drop_last() =~= sv.remove(sv.len() - 1));
                    assert(sv.contains(t));
                    assert(self.slots@[cur as int]@.to_multiset()
                        == sv.to_multiset().remove(t));
                }
                if t.when <= cur_ts {
                    newly.push(t);
                } else {
                    kept.push(t);
                }
            }
            proof {
                assert(self.slots@[cur as int]@.to_multiset() =~= Multiset::<Timer<C, M>>::empty())
                    by {
                    vstd::multiset::lemma_multiset_empty_len(
                        self.slots@[cur as int]@.to_multiset(),
                    );
                }
            }
            let ghost kept0 = kept@;
            let ghost newly0 = newly@;
            self.slots[cur].append(&mut kept);
            let ghost fired0 = fired@;
            fired.append(&mut newly);
            proof {
                assert(self.slots@[cur as int]@ =~= kept0);
                assert(fired@ =~= fired0 + newly0);
                vstd::seq_lib::lemma_multiset_commutative(fired0, newly0);
                assert(self.slots@ == mid.slots@.update(cur as int, self.slots@[cur as int]));
                lemma_slots_mset_update(mid.slots@, cur as int, self.slots@[cur as int]);
                assert forall|x: Timer<C, M>|
                    pre.contents().count(x) == self.contents().add(fired@.to_multiset()).count(
                        x,
                    ) by {
                    assert(slots_mset(mid.slots@.update(cur as int, self.slots@[cur as int])).add(
                        mid.slots@[cur as int]@.to_multiset(),
                    ).count(x) == slots_mset(mid.slots@).add(
                        self.slots@[cur as int]@.to_multiset(),
                    ).count(x));
                }
                assert(pre.contents() =~= self.contents().add(fired@.to_multiset()));
                let sz = pre.size();
                assert(cur as int == (pre.cur_slot + k) % sz);
                assert(cur_ts == pre.window_start() + k * pre.interval);
                assert forall|j: nat, idx: int|
                    1 <= j <= k && 0 <= idx < self.slots@[(pre.cur_slot + j) % sz]@.len() implies (
                #[trigger] self.slots@[(pre.cur_slot + j) % sz]@[idx]).when > pre.window_start()
                    + j * pre.interval by {
                    let s = (pre.cur_slot + j) % sz;
                    if s == cur as int {
                        assert(self.slots@[s]@[idx].when > cur_ts);
                        assert(j * pre.interval <= k * pre.interval) by (nonlinear_arith)
                            requires
                                j <= k,
                                pre.interval >= 0,
                        ;
                    } else {
                        assert(j < k);
                        assert(self.slots@[s] == before.slots@[s]);
                        assert(before.slots@[(pre.cur_slot + j) % pre.size()]@[idx].when
                            > pre.window_start() + j * pre.interval);
                    }
                }
            }
        }
        fired
    }

    /// Remove the timer carrying `id`, searching every bucket; report
    /// the timer if one was found. Cost is linear in the held timers;
    /// deletions are rare relative to fires in the intended workload.
    pub fn remove(&mut self, id: usize) -> (removed: Option<Timer<C, M>>)
        requires
            old(self).wf(),
        ensures
            final(self).wf(),
            final(self).same_shape(*old(self)),
            final(self).cur_slot == old(self).cur_slot,
            final(self).next_ts == old(self).next_ts,
            match removed {
                Some(t) => t.id == id && old(self).contents().count(t) > 0
                    && final(self).contents() =~= old(self).contents().remove(t),
                None => *final(self) == *old(self) && !mset_has_id(old(self).contents(), id),
            },
    {
        let size = self.slots.len();
        let mut s: usize = 0;
        while s < size
            invariant
                *self == *old(self),
                old(self).wf(),
                s <= size,
                size == self.slots@.len(),
                forall|si: int, j: int|
                    0 <= si < s && 0 <= j < self.slots@[si]@.len() ==> (#[trigger] self.slots@[si]@[j]).id
                        != id,
            decreases size - s,
        {
            let slen = self.slots[s].len();
            let mut j: usize = 0;
            while j < slen
                invariant
                    *self == *old(self),
                    old(self).wf(),
                    s < size,
                    size == self.slots@.len(),
                    j <= slen,
                    slen == self.slots@[s as int]@.len(),
                    forall|jj: int|
                        0 <= jj < j ==> (#[trigger] self.slots@[s as int]@[jj]).id != id,
                decreases slen - j,
            {
                if self.slots[s][j].id == id {
                    let ghost pre = *self;
                    let t = self.slots[s].remove(j);
                    proof {
                        assert(pre.slots@[s as int]@.contains(t));
                        assert(self.slots@[s as int]@ == pre.slots@[s as int]@.remove(j as int));
                        self.lemma_one_slot_shrank(pre, s as int, j as int, t);
                    }
                    return Some(t);
                }
                j = j + 1;
            }
            s = s + 1;
        }
        proof {
            assert forall|t: Timer<C, M>| self.contents().count(t) > 0 implies t.id != id by {
                lemma_slots_mset_contains(self.slots@, t);
                let i = choose|i: int| 0 <= i < self.slots@.len() && self.slots@[i]@.contains(t);
                let jj = choose|jj: int|
                    0 <= jj < self.slots@[i]@.len() && self.slots@[i]@[jj] == t;
                assert(self.slots@[i]@[jj].id != id);
            }
        }
        None
    }

    /// Whether any bucket holds a timer carrying `id`.
    pub fn contains_id(&self, id: usize) -> (found: bool)
        requires
            self.wf(),
        ensures
            found == mset_has_id(self.contents(), id),
    {
        let size = self.slots.len();
        let mut s: usize = 0;
        while s < size
            invariant
                self.wf(),
                s <= size,
                size == self.slots@.len(),
                forall|si: int, j: int|
                    0 <= si < s && 0 <= j < self.slots@[si]@.len() ==> (#[trigger] self.slots@[si]@[j]).id
                        != id,
            decreases size - s,
        {
            let slen = self.slots[s].len();
            let mut j: usize = 0;
            while j < slen
                invariant
                    self.wf(),
                    s < size,
                    size == self.slots@.len(),
                    j <= slen,
                    slen == self.slots@[s as int]@.len(),
                    forall|jj: int|
                        0 <= jj < j ==> (#[trigger] self.slots@[s as int]@[jj]).id != id,
                decreases slen - j,
            {
                if self.slots[s][j].id == id {
                    proof {
                        let t = self.slots@[s as int]@[j as int];
                        lemma_slots_mset_contains(self.slots@, t);
                        assert(self.slots@[s as int]@.contains(t));
                    }
                    return true;
                }
                j = j + 1;
            }
            s = s + 1;
        }
        proof {
            assert forall|t: Timer<C, M>| self.contents().count(t) > 0 implies t.id != id by {
                lemma_slots_mset_contains(self.slots@, t);
                let i = choose|i: int| 0 <= i < self.slots@.len() && self.slots@[i]@.contains(t);
                let jj = choose|jj: int|
                    0 <= jj < self.slots@[i]@.len() && self.slots@[i]@[jj] == t;
                assert(self.slots@[i]@[jj].id != id);
            }
        }
        false
    }

    /// After removing index `j` from bucket `i`, the wheel holds exactly
    /// one less copy of the removed timer and everything else unchanged.
    proof fn lemma_one_slot_shrank(self, pre: Self, i: int, j: int, t: Timer<C, M>)
        requires
            0 <= i < pre.slots@.len(),
            0 <= j < pre.slots@[i]@.len(),
            pre.slots@[i]@[j] == t,
            self.slots@ == pre.slots@.update(i, self.slots@[i]),
            self.slots@[i]@ == pre.slots@[i]@.remove(j),
        ensures
            self.contents() =~= pre.contents().remove(t),
            pre.contents().count(t) > 0,
    {
        lemma_slots_mset_update(pre.slots@, i, self.slots@[i]);
        assert(pre.slots@[i]@.contains(t));
        assert(pre.slots@[i]@.to_multiset().count(t) > 0);
        assert(self.slots@[i]@.to_multiset() == pre.slots@[i]@.to_multiset().remove(t));
        assert(pre.contents().count(t) > 0) by {
            lemma_slots_mset_contains(pre.slots@, t);
        }
        assert forall|x: Timer<C, M>| self.contents().count(x) == pre.contents().remove(t).count(
            x,
        ) by {
            assert(slots_mset(pre.slots@.update(i, self.slots@[i])).add(
                pre.slots@[i]@.to_multiset(),
            ).count(x) == slots_mset(pre.slots@).add(self.slots@[i]@.to_multiset()).count(x));
        }
    }

    /// After pushing `t` onto bucket `i`, the wheel holds exactly one
    /// more copy of `t` and everything else unchanged.
    proof fn lemma_one_slot_grew(self, pre: Self, i: int, t: Timer<C, M>)
        requires
            0 <= i < pre.slots@.len(),
            self.slots@ == pre.slots@.update(i, self.slots@[i]),
            self.slots@[i]@ == pre.slots@[i]@.push(t),
        ensures
            self.contents() =~= pre.contents().insert(t),
    {
        lemma_slots_mset_update(pre.slots@, i, self.slots@[i]);
        assert(self.slots@[i]@.to_multiset() =~= pre.slots@[i]@.to_multiset().insert(t));
        assert forall|x: Timer<C, M>| self.contents().count(x) == pre.contents().insert(t).count(
            x,
        ) by {
            assert(slots_mset(pre.slots@.update(i, self.slots@[i])).add(
                pre.slots@[i]@.to_multiset(),
            ).count(x) == slots_mset(pre.slots@).add(self.slots@[i]@.to_multiset()).count(x));
        }
    }
}

} // verus!
