//! The engine: owns the scheduler, advances ticks and runs due events within a
//! per-tick execution budget.
use crate::event::Event;
use crate::queue::{key_lt, Key};
use crate::scheduler::{saturating_sum, Scheduler};
use vstd::prelude::*;

verus! {

/// The budget of a freshly built engine.
pub const DEFAULT_MAX_EXECUTIONS_PER_TICK: u64 = 5;

/// One execution of an event: the tick it ran at, the tick it was due at, and its id.
pub struct Firing {
    pub tick: u64,
    pub due: u64,
    pub id: u64,
}

impl Firing {
    /// The queue key the event ran under.
    pub open spec fn key(self) -> Key {
        (self.due, self.id)
    }
}

/// Some execution at index `from` or later of `log` ran `id`.
pub open spec fn fired_since(log: Seq<Firing>, from: int, id: u64) -> bool {
    exists|i: int| from <= i < log.len() && #[trigger] log[i].id == id
}

/// Some entry at index `from` or later of `dropped` is `id`.
pub open spec fn dropped_since(dropped: Seq<u64>, from: int, id: u64) -> bool {
    exists|i: int| from <= i < dropped.len() && #[trigger] dropped[i] == id
}

/// The simulation engine over events of type `E`.
pub struct Engine<E> {
    scheduler: Scheduler<E>,
    total_events_executed: u64,
    max_executions_per_tick: u64,
    log: Ghost<Seq<Firing>>,
    dropped: Ghost<Seq<u64>>,
}

impl<E> Engine<E> {
    /// The scheduler: pending entries, id counter, cancellations, current tick.
    pub closed spec fn sched(&self) -> Scheduler<E> {
        self.scheduler
    }

    /// The current tick: 0 before the first `step`, then one more per `step`.
    pub open spec fn tick(&self) -> u64 {
        self.sched().tick()
    }

    /// The per-tick execution budget.
    pub closed spec fn budget(&self) -> u64 {
        self.max_executions_per_tick
    }

    /// The number of executions so far, saturating at `u64::MAX`.
    pub closed spec fn total(&self) -> u64 {
        self.total_events_executed
    }

    /// Every execution so far, in the order they ran.
    pub closed spec fn log(&self) -> Seq<Firing> {
        self.log@
    }

    /// The ids of cancelled entries dropped so far, in the order they were dropped.
    pub closed spec fn dropped(&self) -> Seq<u64> {
        self.dropped@
    }

    /// Well-formedness: executions ran in increasing key order, each at or after
    /// its due tick, and every pending key lies above every executed one; an
    /// event that ran is not pending, and no event ran twice.
    pub open spec fn wf(&self) -> bool {
        &&& self.sched().wf()
        &&& forall|i: int, j: int|
            0 <= i < j < self.log().len() ==> key_lt(
                #[trigger] self.log()[i].key(),
                #[trigger] self.log()[j].key(),
            ) && self.log()[i].id != self.log()[j].id
        &&& forall|i: int|
            0 <= i < self.log().len() ==> {
                &&& (#[trigger] self.log()[i]).due <= self.log()[i].tick
                &&& self.log()[i].tick <= self.tick()
                &&& self.log()[i].id <= self.sched().last_id()
                &&& !self.sched().pending(self.log()[i].id)
            }
        &&& forall|i: int, id: u64|
            0 <= i < self.log().len() && #[trigger] self.sched().pending(id) ==> key_lt(
                #[trigger] self.log()[i].key(),
                self.sched().keys()[id],
            )
    }

    /// What one `step` does, from `pre` to `post`.
    ///
    /// The tick goes up by exactly one; at most `budget` events run, all at the
    /// new tick, appended to the log; an entry that was pending and cancelled
    /// does not run, and stays cancelled while it is pending; every other entry
    /// that was pending is still pending under its key, or ran, or was dropped;
    /// an entry is dropped only if it was marked cancelled when the step began
    /// or was marked again by an event of this step, and its mark is then used
    /// up; each event run was pending under the key it ran with, or was scheduled
    /// during the step for the new tick itself; and the step ends early only on
    /// an exhausted budget.
    pub open spec fn stepped(pre: Self, post: Self) -> bool {
        let from = pre.log().len() as int;
        let n = post.log().len() - from;
        &&& post.wf()
        &&& post.tick() == pre.tick() + 1
        &&& post.budget() == pre.budget()
        &&& from <= post.log().len()
        &&& post.log().subrange(0, from) == pre.log()
        &&& n <= pre.budget()
        &&& post.total() == saturating_sum(pre.total(), n as u64)
        &&& forall|i: int| from <= i < post.log().len() ==> (#[trigger] post.log()[i]).tick == post.tick()
        &&& pre.dropped().len() <= post.dropped().len()
        &&& post.dropped().subrange(0, pre.dropped().len() as int) == pre.dropped()
        &&& forall|id: u64|
            #[trigger] pre.sched().pending(id) && pre.sched().cancelled().contains(id) ==> {
                &&& !fired_since(post.log(), from, id)
                &&& post.sched().pending(id) ==> post.sched().cancelled().contains(id)
            }
        &&& forall|id: u64|
            #[trigger] pre.sched().pending(id) ==> {
                ||| post.sched().pending(id) && post.sched().keys()[id] == pre.sched().keys()[id]
                ||| fired_since(post.log(), from, id)
                ||| dropped_since(post.dropped(), pre.dropped().len() as int, id)
            }
        &&& n == pre.budget() || forall|id: u64| #[trigger]
            post.sched().pending(id) ==> post.sched().keys()[id].0 > post.tick()
        &&& pre.sched().last_id() <= post.sched().last_id()
        &&& forall|id: u64| #[trigger] post.sched().pending(id) && !pre.sched().pending(id)
            ==> id > pre.sched().last_id()
        &&& forall|i: int| from <= i < post.log().len() ==> {
            ||| pre.sched().pending((#[trigger] post.log()[i]).id) && pre.sched().keys()[post.log()[i].id]
                == post.log()[i].key()
            ||| post.log()[i].id > pre.sched().last_id() && post.log()[i].due == post.tick()
        }
        &&& forall|x: u64| #[trigger] pre.sched().marks(x) <= post.sched().marks(x)
        &&& n == 0 ==> post.sched().last_id() == pre.sched().last_id()
        &&& n == 0 ==> forall|x: u64| #[trigger] post.sched().marks(x) == pre.sched().marks(x)
        &&& forall|k: int| pre.dropped().len() <= k < post.dropped().len() ==> {
            let d = #[trigger] post.dropped()[k];
            &&& pre.sched().cancelled().contains(d) || post.sched().marks(d) > pre.sched().marks(d)
            &&& post.sched().marks(d) == pre.sched().marks(d) ==> !post.sched().cancelled().contains(d)
        }
    }

    /// An engine whose log is that of a well-formed one, and whose scheduler
    /// holds the same entries under a later tick and no smaller id counter, is
    /// well-formed too.
    proof fn lemma_wf_frame(post: Self, pre: Self)
        requires
            pre.wf(),
            post.sched().wf(),
            post.log() == pre.log(),
            forall|id: u64| #[trigger] post.sched().pending(id) ==> pre.sched().pending(id)
                && post.sched().keys()[id] == pre.sched().keys()[id],
            pre.tick() <= post.tick(),
            pre.sched().last_id() <= post.sched().last_id(),
        ensures
            post.wf(),
    {
        assert forall|i: int, id: u64|
            0 <= i < post.log().len() && #[trigger] post.sched().pending(id) implies key_lt(
            #[trigger] post.log()[i].key(),
            post.sched().keys()[id],
        ) by {
            assert(pre.sched().pending(id));
        }
    }

    /// An engine at tick 0 with nothing pending and the default budget.
    pub fn build() -> (r: Self)
        ensures
            r.wf(),
            r.tick() == 0,
            r.sched().last_id() == 0,
            r.sched().keys().dom() == Set::<u64>::empty(),
            r.sched().cancelled() == Set::<u64>::empty(),
            r.budget() == DEFAULT_MAX_EXECUTIONS_PER_TICK,
            r.total() == 0,
            r.log() == Seq::<Firing>::empty(),
            r.dropped() == Seq::<u64>::empty(),
            forall|x: u64| #[trigger] r.sched().marks(x) == 0,
    {
        Engine {
            scheduler: Scheduler::new(0),
            total_events_executed: 0,
            max_executions_per_tick: DEFAULT_MAX_EXECUTIONS_PER_TICK,
            log: Ghost(Seq::empty()),
            dropped: Ghost(Seq::empty()),
        }
    }

    /// Advances one tick and runs the events due by then, smallest key first,
    /// until the budget is spent or nothing more is due. Cancelled entries that
    /// reach the head are dropped without running and cost no budget; events
    /// scheduled while the tick runs are run in the same tick when they are due.
    pub fn step<W>(&mut self, world: &mut W) where E: Event<W>
        requires
            old(self).wf(),
            old(self).tick() < u64::MAX,
        ensures
            Self::stepped(*old(self), *final(self)),
    {
        self.scheduler.advance();
        let now = self.scheduler.current_tick();
        let mut executions: u64 = 0;
        let ghost from = self.log@.len() as int;
        let ghost dfrom = self.dropped@.len() as int;
        proof {
            Self::lemma_wf_frame(*self, *old(self));
            assert(self.log@.subrange(0, from) =~= old(self).log@);
            assert(self.dropped@.subrange(0, dfrom) =~= old(self).dropped@);
        }
        loop
            invariant
                old(self).wf(),
                self.wf(),
                self.tick() == now,
                now == old(self).tick() + 1,
                self.budget() == old(self).budget(),
                executions <= self.max_executions_per_tick,
                self.log@.len() == from + executions,
                from == old(self).log@.len(),
                dfrom == old(self).dropped@.len(),
                self.log@.subrange(0, from) == old(self).log@,
                dfrom <= self.dropped@.len(),
                self.dropped@.subrange(0, dfrom) == old(self).dropped@,
                self.total_events_executed == saturating_sum(old(self).total(), executions),
                forall|i: int| from <= i < self.log@.len() ==> (#[trigger] self.log@[i]).tick == now,
                forall|i: int| from <= i < self.log@.len() ==> {
                    ||| old(self).sched().pending((#[trigger] self.log@[i]).id)
                        && old(self).sched().keys()[self.log@[i].id] == self.log@[i].key()
                    ||| self.log@[i].id > old(self).sched().last_id() && self.log@[i].due == now
                },
                forall|x: u64| #[trigger] old(self).sched().marks(x) <= self.sched().marks(x),
                executions == 0 ==> self.sched().last_id() == old(self).sched().last_id(),
                executions == 0 ==> forall|x: u64| #[trigger] self.sched().marks(x) == old(self).sched().marks(x),
                forall|x: u64| #[trigger] self.sched().cancelled().contains(x) && self.sched().marks(x)
                    == old(self).sched().marks(x) ==> old(self).sched().cancelled().contains(x),
                forall|k: int| dfrom <= k < self.dropped@.len() ==> {
                    let d = #[trigger] self.dropped@[k];
                    &&& old(self).sched().cancelled().contains(d) || self.sched().marks(d) > old(self).sched().marks(d)
                    &&& self.sched().marks(d) == old(self).sched().marks(d) ==> !self.sched().cancelled().contains(d)
                },
                forall|id: u64| #[trigger] self.sched().pending(id) && old(self).sched().pending(id)
                    ==> self.sched().keys()[id] == old(self).sched().keys()[id],
                forall|id: u64|
                    #[trigger] old(self).sched().pending(id) && old(self).sched().cancelled().contains(id) ==> {
                        &&& !fired_since(self.log@, from, id)
                        &&& self.sched().pending(id) ==> self.sched().cancelled().contains(id)
                    },
                forall|id: u64|
                    #[trigger] old(self).sched().pending(id) ==> {
                        ||| self.sched().pending(id) && self.sched().keys()[id] == old(self).sched().keys()[id]
                        ||| fired_since(self.log@, from, id)
                        ||| dropped_since(self.dropped@, dfrom, id)
                    },
                forall|id: u64| #[trigger] self.sched().pending(id) && !old(self).sched().pending(id)
                    ==> id > old(self).sched().last_id() && self.sched().keys()[id].0 >= now,
                old(self).sched().last_id() <= self.sched().last_id(),
            ensures
                executions == self.max_executions_per_tick || forall|id: u64| #[trigger]
                    self.sched().pending(id) ==> self.sched().keys()[id].0 > now,
            decreases self.max_executions_per_tick - executions, self.sched().keys().len(),
        {
            if executions >= self.max_executions_per_tick {
                break;
            }
            match self.scheduler.peek_next() {
                None => {
                    break;
                },
                Some((_, head)) => {
                    if head.0 > now {
                        break;
                    }
                },
            }
            let ghost before = *self;
            let popped = self.scheduler.pop_next();
            let (key, item) = match popped {
                Some(p) => p,
                None => {
                    break;
                },
            };
            proof {
                assert(key.0 <= now);
            }
            proof {
                assert(before.sched().pending(item.id));
                assert(item.id == key.1);
            }
            if self.scheduler.unmark(item.id) {
                proof {
                    self.dropped@ = self.dropped@.push(item.id);
                    assert forall|i: int, id: u64|
                        0 <= i < self.log().len() && #[trigger] self.sched().pending(id) implies key_lt(
                        #[trigger] self.log()[i].key(),
                        self.sched().keys()[id],
                    ) by {
                        assert(before.sched().pending(id));
                        assert(self.log()[i] == before.log()[i]);
                        assert(key_lt(before.log()[i].key(), before.sched().keys()[id]));
                    }
                    assert(self.log@.subrange(0, from) == before.log@.subrange(0, from));
                    assert forall|id: u64|
                        #[trigger] old(self).sched().pending(id) implies {
                            ||| self.sched().pending(id) && self.sched().keys()[id] == old(self).sched().keys()[id]
                            ||| fired_since(self.log@, from, id)
                            ||| dropped_since(self.dropped@, dfrom, id)
                        } by {
                        if id == item.id {
                            assert(self.dropped@[self.dropped@.len() - 1] == id);
                        } else if fired_since(before.log@, from, id) {
                        } else if dropped_since(before.dropped@, dfrom, id) {
                            let j = choose|j: int| dfrom <= j < before.dropped@.len() && #[trigger] before.dropped@[j] == id;
                            assert(self.dropped@[j] == id);
                        } else {
                            assert(before.sched().pending(id));
                        }
                    }
                    assert(self.dropped@.subrange(0, dfrom) =~= old(self).dropped@) by {
                        assert(self.dropped@.subrange(0, dfrom) =~= before.dropped@.subrange(0, dfrom));
                    }
                    Self::lemma_wf_frame(*self, before);
                    assert forall|k: int| dfrom <= k < self.dropped@.len() implies {
                        let d = #[trigger] self.dropped@[k];
                        &&& old(self).sched().cancelled().contains(d) || self.sched().marks(d) > old(self).sched().marks(d)
                        &&& self.sched().marks(d) == old(self).sched().marks(d) ==> !self.sched().cancelled().contains(d)
                    } by {
                        let d = self.dropped@[k];
                        assert(self.sched().marks(d) == before.sched().marks(d));
                        assert(old(self).sched().marks(d) <= before.sched().marks(d));
                        if k < before.dropped@.len() {
                            assert(before.dropped@[k] == d);
                        } else {
                            assert(d == item.id);
                            assert(before.sched().cancelled().contains(d));
                        }
                    }
                    assert forall|id: u64| #[trigger] self.sched().pending(id) && old(self).sched().pending(id)
                        implies self.sched().keys()[id] == old(self).sched().keys()[id] by {
                        assert(before.sched().pending(id));
                    }
                    assert forall|id: u64| #[trigger] self.sched().pending(id) && !old(self).sched().pending(id)
                        implies id > old(self).sched().last_id() && self.sched().keys()[id].0 >= now by {
                        assert(before.sched().pending(id));
                    }
                    assert forall|x: u64| #[trigger] old(self).sched().marks(x) <= self.sched().marks(x) by {
                        assert(old(self).sched().marks(x) <= before.sched().marks(x));
                        assert(self.sched().marks(x) == before.sched().marks(x));
                    }
                    assert forall|id: u64| #[trigger] self.sched().pending(id) && !old(self).sched().pending(id)
                        implies id > old(self).sched().last_id() by {
                        assert(before.sched().pending(id));
                    }
                }
            } else {
                let ghost mid = self.scheduler;
                item.event.execute(world, now, &mut self.scheduler);
                executions = executions + 1;
                self.total_events_executed = if self.total_events_executed == u64::MAX {
                    u64::MAX
                } else {
                    self.total_events_executed + 1
                };
                proof {
                    let f = Firing { tick: now, due: key.0, id: item.id };
                    self.log@ = self.log@.push(f);
                    let last = self.log@.len() - 1;
                    assert(self.log()[last] == f);
                    assert forall|id: u64| #[trigger] self.sched().pending(id) implies key_lt(
                        key,
                        self.sched().keys()[id],
                    ) by {
                        if mid.pending(id) {
                            assert(before.sched().pending(id));
                            assert(id != item.id);
                        }
                    }
                    assert forall|i: int, id: u64|
                        0 <= i < self.log().len() && #[trigger] self.sched().pending(id) implies key_lt(
                        #[trigger] self.log()[i].key(),
                        self.sched().keys()[id],
                    ) by {
                        assert(key_lt(key, self.sched().keys()[id]));
                        if i < last {
                            assert(self.log()[i] == before.log()[i]);
                            assert(key_lt(before.log()[i].key(), key));
                        }
                    }
                    assert forall|i: int, j: int|
                        0 <= i < j < self.log().len() implies key_lt(
                        #[trigger] self.log()[i].key(),
                        #[trigger] self.log()[j].key(),
                    ) && self.log()[i].id != self.log()[j].id by {
                        assert(self.log()[i] == before.log()[i]);
                        if j < last {
                            assert(self.log()[j] == before.log()[j]);
                            assert(key_lt(before.log()[i].key(), before.log()[j].key()));
                        } else {
                            assert(key_lt(before.log()[i].key(), key));
                            assert(!before.sched().pending(before.log()[i].id));
                        }
                    }
                    assert forall|i: int| 0 <= i < self.log().len() implies {
                        &&& (#[trigger] self.log()[i]).due <= self.log()[i].tick
                        &&& self.log()[i].tick <= self.tick()
                        &&& self.log()[i].id <= self.sched().last_id()
                        &&& !self.sched().pending(self.log()[i].id)
                    } by {
                        let x = self.log()[i].id;
                        if i < last {
                            assert(self.log()[i] == before.log()[i]);
                            assert(!before.sched().pending(x));
                        }
                        assert(!mid.pending(x));
                        if self.sched().pending(x) {
                            assert(x > mid.last_id());
                        }
                    }
                    assert(self.wf());
                    assert forall|x: u64| #[trigger] old(self).sched().marks(x) <= self.sched().marks(x) by {
                        assert(old(self).sched().marks(x) <= before.sched().marks(x));
                        assert(mid.marks(x) == before.sched().marks(x));
                        assert(mid.marks(x) <= self.scheduler.marks(x));
                    }
                    assert(mid.reaches(self.scheduler));
                    assert forall|k: int| dfrom <= k < self.dropped@.len() implies {
                        let d = #[trigger] self.dropped@[k];
                        &&& old(self).sched().cancelled().contains(d) || self.sched().marks(d) > old(self).sched().marks(d)
                        &&& self.sched().marks(d) == old(self).sched().marks(d) ==> !self.sched().cancelled().contains(d)
                    } by {
                        let d = self.dropped@[k];
                        assert(before.dropped@[k] == d);
                        assert(old(self).sched().marks(d) <= before.sched().marks(d));
                        assert(mid.marks(d) == before.sched().marks(d));
                        assert(mid.marks(d) <= self.scheduler.marks(d));
                        if self.sched().marks(d) == old(self).sched().marks(d) {
                            assert(!before.sched().cancelled().contains(d));
                            assert(!mid.cancelled().contains(d));
                            if self.scheduler.cancelled().contains(d) {
                                assert(mid.cancelled().contains(d));
                            }
                        }
                    }
                    assert forall|x: u64| #[trigger] self.sched().cancelled().contains(x) && self.sched().marks(x)
                        == old(self).sched().marks(x) implies old(self).sched().cancelled().contains(x) by {
                        assert(old(self).sched().marks(x) <= before.sched().marks(x));
                        assert(mid.marks(x) == before.sched().marks(x));
                        assert(mid.marks(x) <= self.scheduler.marks(x));
                        assert(self.scheduler.cancelled().contains(x));
                        assert(mid.cancelled().contains(x));
                        assert(before.sched().cancelled().contains(x));
                    }
                    assert forall|id: u64| #[trigger] self.sched().pending(id) && old(self).sched().pending(id)
                        implies self.sched().keys()[id] == old(self).sched().keys()[id] by {
                        if mid.pending(id) {
                            assert(before.sched().pending(id));
                        } else {
                            assert(self.scheduler.pending(id) && !mid.pending(id));
                        }
                    }
                    assert forall|id: u64| #[trigger] self.sched().pending(id) && !old(self).sched().pending(id)
                        implies id > old(self).sched().last_id() && self.sched().keys()[id].0 >= now by {
                        if mid.pending(id) {
                            assert(before.sched().pending(id));
                        } else {
                            assert(self.scheduler.pending(id) && !mid.pending(id));
                        }
                    }
                    if old(self).sched().pending(item.id) {
                        assert(before.sched().keys()[item.id] == old(self).sched().keys()[item.id]);
                    }
                    assert forall|i: int| from <= i < self.log@.len() implies {
                        ||| old(self).sched().pending((#[trigger] self.log@[i]).id)
                            && old(self).sched().keys()[self.log@[i].id] == self.log@[i].key()
                        ||| self.log@[i].id > old(self).sched().last_id() && self.log@[i].due == now
                    } by {
                        if i < last {
                            assert(self.log@[i] == before.log@[i]);
                        }
                    }
                    assert forall|i: int| from <= i < self.log@.len() implies old(self).sched().pending(
                        (#[trigger] self.log@[i]).id,
                    ) || self.log@[i].id > old(self).sched().last_id() by {
                        if i < last {
                            assert(self.log@[i] == before.log@[i]);
                        }
                    }
                    assert forall|id: u64| #[trigger] self.sched().pending(id) && !old(self).sched().pending(id)
                        implies id > old(self).sched().last_id() by {
                        if mid.pending(id) {
                            assert(before.sched().pending(id));
                        }
                    }
                    assert(self.log@.subrange(0, from) =~= before.log@.subrange(0, from));
                    assert forall|id: u64|
                        #[trigger] old(self).sched().pending(id) implies {
                            ||| self.sched().pending(id) && self.sched().keys()[id] == old(self).sched().keys()[id]
                            ||| fired_since(self.log@, from, id)
                            ||| dropped_since(self.dropped@, dfrom, id)
                        } by {
                        if id == item.id {
                            assert(self.log@[last].id == id);
                        } else if fired_since(before.log@, from, id) {
                            let j = choose|j: int| from <= j < before.log@.len() && #[trigger] before.log@[j].id == id;
                            assert(self.log@[j].id == id);
                        } else if dropped_since(before.dropped@, dfrom, id) {
                        } else {
                            assert(before.sched().pending(id));
                            assert(mid.pending(id));
                        }
                    }
                    assert forall|id: u64|
                        #[trigger] old(self).sched().pending(id) && old(self).sched().cancelled().contains(id) implies {
                            &&& !fired_since(self.log@, from, id)
                            &&& self.sched().pending(id) ==> self.sched().cancelled().contains(id)
                        } by {
                        if fired_since(self.log@, from, id) {
                            let j = choose|j: int| from <= j < self.log@.len() && #[trigger] self.log@[j].id == id;
                            if j < last {
                                assert(before.log@[j].id == id);
                                assert(fired_since(before.log@, from, id));
                            } else {
                                assert(id == item.id);
                                assert(before.sched().cancelled().contains(id));
                            }
                        }
                        if self.sched().pending(id) {
                            if mid.pending(id) {
                                assert(before.sched().pending(id));
                                assert(before.sched().cancelled().contains(id));
                                assert(mid.cancelled().contains(id));
                                assert(mid.cancelled().subset_of(self.scheduler.cancelled()));
                                assert(self.scheduler.cancelled().contains(id));
                            } else {
                                assert(mid.reaches(self.scheduler));
                                assert(self.scheduler.pending(id) && !mid.pending(id));
                                assert(id > mid.last_id());
                                assert(id <= old(self).sched().last_id());
                            }
                        }
                    }
                }
            }
        }
    }

    /// A well-formed engine stays well-formed when its scheduler moves on as a
    /// running event may move it, the log unchanged.
    proof fn lemma_wf_reaches(post: Self, pre: Self)
        requires
            pre.wf(),
            pre.sched().reaches(post.sched()),
            post.log() == pre.log(),
            post.dropped() == pre.dropped(),
        ensures
            post.wf(),
    {
        assert forall|i: int, id: u64|
            0 <= i < post.log().len() && #[trigger] post.sched().pending(id) implies key_lt(
            #[trigger] post.log()[i].key(),
            post.sched().keys()[id],
        ) by {
            if pre.sched().pending(id) {
                assert(key_lt(pre.log()[i].key(), pre.sched().keys()[id]));
            } else {
                assert(pre.log()[i].tick <= pre.tick());
            }
        }
    }

    /// Order of execution: of any two executions, the earlier one was due at a
    /// strictly smaller tick, or at the same tick under a smaller id, that is,
    /// scheduled first.
    pub proof fn lemma_execution_order(&self, i: int, j: int)
        requires
            self.wf(),
            0 <= i < j < self.log().len(),
        ensures
            self.log()[i].due < self.log()[j].due || (self.log()[i].due == self.log()[j].due
                && self.log()[i].id < self.log()[j].id),
    {
        assert(key_lt(self.log()[i].key(), self.log()[j].key()));
    }

    proof fn lemma_cancelled_stays_unrun(trace: Seq<Self>, id: u64, k: int)
        requires
            Self::is_run(trace),
            trace[0].wf(),
            trace[0].sched().pending(id),
            trace[0].sched().cancelled().contains(id),
            0 <= k < trace.len(),
        ensures
            !fired_since(trace[k].log(), trace[0].log().len() as int, id),
            trace[k].sched().pending(id) ==> trace[k].sched().cancelled().contains(id),
            trace[0].sched().last_id() <= trace[k].sched().last_id(),
            trace[0].log().len() <= trace[k].log().len(),
        decreases k,
    {
        if k > 0 {
            Self::lemma_cancelled_stays_unrun(trace, id, k - 1);
            let pre = trace[k - 1];
            let post = trace[k];
            let from = trace[0].log().len() as int;
            assert(Self::stepped(trace[k - 1], trace[(k - 1) + 1]));
            assert(trace[(k - 1) + 1] == post);
            assert(id <= trace[0].sched().last_id());
            if fired_since(post.log(), from, id) {
                let j = choose|j: int| from <= j < post.log().len() && #[trigger] post.log()[j].id == id;
                if j < pre.log().len() {
                    assert(post.log().subrange(0, pre.log().len() as int)[j] == post.log()[j]);
                    assert(pre.log()[j].id == id);
                    assert(fired_since(pre.log(), from, id));
                } else if pre.sched().pending(id) {
                    assert(fired_since(post.log(), pre.log().len() as int, id));
                } else {
                    assert(post.log()[j].id > pre.sched().last_id());
                }
            }
        }
    }

    /// Cancellation: an entry that is pending and marked cancelled when a run of
    /// `step` begins does not run at any step of that run.
    pub proof fn lemma_cancelled_never_runs(trace: Seq<Self>, id: u64)
        requires
            Self::is_run(trace),
            trace[0].wf(),
            trace[0].sched().pending(id),
            trace[0].sched().cancelled().contains(id),
        ensures
            forall|k: int|
                0 <= k < trace.len() ==> !fired_since(
                    #[trigger] trace[k].log(),
                    trace[0].log().len() as int,
                    id,
                ),
    {
        assert forall|k: int| 0 <= k < trace.len() implies !fired_since(
            #[trigger] trace[k].log(),
            trace[0].log().len() as int,
            id,
        ) by {
            Self::lemma_cancelled_stays_unrun(trace, id, k);
        }
    }

    /// An event that has run is never pending again: ids are not reused, so
    /// cancelling it afterwards only sets a mark that nothing will meet.
    pub proof fn lemma_ran_is_never_pending(&self, i: int)
        requires
            self.wf(),
            0 <= i < self.log().len(),
        ensures
            !self.sched().pending(self.log()[i].id),
    {
    }

    /// `trace` is a run of `step`: each engine in it is what one `step` makes of
    /// the one before.
    pub open spec fn is_run(trace: Seq<Self>) -> bool {
        &&& trace.len() >= 1
        &&& forall|i: int| 0 <= i < trace.len() - 1 ==> #[trigger] Self::stepped(trace[i], trace[i + 1])
    }

    /// Sets the per-tick execution budget.
    pub fn max_executions_per_tick(self, execution_rate: u64) -> (r: Self)
        requires
            self.wf(),
        ensures
            r.wf(),
            r.budget() == execution_rate,
            r.sched() == self.sched(),
            r.total() == self.total(),
            r.log() == self.log(),
            r.dropped() == self.dropped(),
    {
        let mut engine = self;
        engine.max_executions_per_tick = execution_rate;
        proof {
            Self::lemma_wf_frame(engine, self);
        }
        engine
    }

    /// Schedules `event` to run `delay` ticks after the current tick and returns
    /// its id, the next one in sequence. A due tick past `u64::MAX` saturates.
    pub fn schedule(&mut self, event: E, delay: u64) -> (id: u64)
        requires
            old(self).wf(),
            old(self).sched().last_id() < u64::MAX,
        ensures
            final(self).wf(),
            id == old(self).sched().last_id() + 1,
            final(self).sched().last_id() == id,
            final(self).tick() == old(self).tick(),
            final(self).sched().keys() == old(self).sched().keys().insert(
                id,
                (saturating_sum(old(self).tick(), delay), id),
            ),
            final(self).sched().payloads() == old(self).sched().payloads().insert(id, event),
            final(self).sched().cancelled() == old(self).sched().cancelled(),
            forall|x: u64| #[trigger] final(self).sched().marks(x) == old(self).sched().marks(x),
            final(self).budget() == old(self).budget(),
            final(self).total() == old(self).total(),
            final(self).log() == old(self).log(),
            final(self).dropped() == old(self).dropped(),
    {
        let id = self.scheduler.schedule(event, delay);
        proof {
            Self::lemma_wf_reaches(*self, *old(self));
        }
        id
    }

    /// Marks `id` cancelled: if it is pending it will be dropped, unrun and
    /// uncounted, when it reaches the head of the queue. Marking an id that is
    /// not pending, or marking twice, changes nothing else.
    pub fn cancel(&mut self, id: u64)
        requires
            old(self).wf(),
        ensures
            final(self).wf(),
            final(self).sched().cancelled() == old(self).sched().cancelled().insert(id),
            final(self).sched().marks(id) == old(self).sched().marks(id) + 1,
            forall|x: u64| x != id ==> #[trigger] final(self).sched().marks(x) == old(self).sched().marks(x),
            final(self).sched().keys() == old(self).sched().keys(),
            final(self).sched().payloads() == old(self).sched().payloads(),
            final(self).sched().last_id() == old(self).sched().last_id(),
            final(self).tick() == old(self).tick(),
            final(self).budget() == old(self).budget(),
            final(self).total() == old(self).total(),
            final(self).log() == old(self).log(),
            final(self).dropped() == old(self).dropped(),
    {
        self.scheduler.cancel(id);
        proof {
            Self::lemma_wf_reaches(*self, *old(self));
        }
    }

    /// Schedules each `(event, delay)` of `initial_pool` in order, delays
    /// counted from the current tick; the i-th pair gets the i-th next id.
    pub fn initial_event_pool(self, initial_pool: Vec<(E, u64)>) -> (r: Self)
        requires
            self.wf(),
            self.sched().last_id() + initial_pool@.len() <= u64::MAX,
        ensures
            r.wf(),
            r.sched().last_id() == self.sched().last_id() + initial_pool@.len(),
            forall|i: int|
                0 <= i < initial_pool@.len() ==> {
                    let id = (self.sched().last_id() + 1 + i) as u64;
                    &&& r.sched().pending(id)
                    &&& r.sched().keys()[id] == (
                        saturating_sum(self.tick(), (#[trigger] initial_pool@[i]).1),
                        id,
                    )
                    &&& r.sched().payloads()[id] == initial_pool@[i].0
                },
            forall|id: u64|
                #[trigger] r.sched().pending(id) <==> self.sched().pending(id) || (
                self.sched().last_id() < id <= self.sched().last_id() + initial_pool@.len()),
            forall|id: u64|
                #[trigger] self.sched().pending(id) ==> r.sched().keys()[id]
                    == self.sched().keys()[id] && r.sched().payloads()[id]
                    == self.sched().payloads()[id],
            r.sched().cancelled() == self.sched().cancelled(),
            forall|x: u64| #[trigger] r.sched().marks(x) == self.sched().marks(x),
            r.tick() == self.tick(),
            r.budget() == self.budget(),
            r.total() == self.total(),
            r.log() == self.log(),
            r.dropped() == self.dropped(),
    {
        let mut engine = self;
        let total: usize = initial_pool.len();
        let mut rest = initial_pool;
        let ghost base = self.sched().last_id();
        let ghost n = initial_pool@.len();
        let mut k: usize = 0;
        while rest.len() > 0
            invariant
                engine.wf(),
                k <= n,
                n == total,
                k + rest@.len() == n,
                rest@ == initial_pool@.subrange(k as int, n as int),
                n == initial_pool@.len(),
                base == self.sched().last_id(),
                base + n <= u64::MAX,
                engine.sched().last_id() == base + k,
                forall|i: int|
                    0 <= i < k ==> {
                        let id = (base + 1 + i) as u64;
                        &&& engine.sched().pending(id)
                        &&& engine.sched().keys()[id] == (
                            saturating_sum(self.tick(), (#[trigger] initial_pool@[i]).1),
                            id,
                        )
                        &&& engine.sched().payloads()[id] == initial_pool@[i].0
                    },
                forall|id: u64|
                    #[trigger] engine.sched().pending(id) <==> self.sched().pending(id) || (base < id
                        <= base + k),
                forall|id: u64|
                    #[trigger] self.sched().pending(id) ==> engine.sched().keys()[id]
                        == self.sched().keys()[id] && engine.sched().payloads()[id]
                        == self.sched().payloads()[id],
                engine.sched().cancelled() == self.sched().cancelled(),
                forall|x: u64| #[trigger] engine.sched().marks(x) == self.sched().marks(x),
                engine.tick() == self.tick(),
                engine.budget() == self.budget(),
                engine.total() == self.total(),
                engine.log() == self.log(),
                engine.dropped() == self.dropped(),
            decreases rest.len(),
        {
            let ghost prev = engine;
            let (event, delay) = rest.remove(0);
            proof {
                assert(initial_pool@[k as int] == (event, delay));
            }
            let id = engine.schedule(event, delay);
            proof {
                assert forall|i: int| 0 <= i < k + 1 implies {
                    let id = (base + 1 + i) as u64;
                    &&& engine.sched().pending(id)
                    &&& engine.sched().keys()[id] == (
                        saturating_sum(self.tick(), (#[trigger] initial_pool@[i]).1),
                        id,
                    )
                    &&& engine.sched().payloads()[id] == initial_pool@[i].0
                } by {
                    if i < k {
                        assert(prev.sched().pending((base + 1 + i) as u64));
                    }
                }
                assert(rest@ =~= initial_pool@.subrange(k + 1, n as int));
                assert forall|j: u64| #[trigger] engine.sched().pending(j) <==> self.sched().pending(j) || (base < j
                    <= base + k + 1) by {
                    if j != id {
                        assert(engine.sched().pending(j) <==> prev.sched().pending(j));
                    }
                }
                assert forall|j: u64| #[trigger] self.sched().pending(j) implies engine.sched().keys()[j]
                    == self.sched().keys()[j] && engine.sched().payloads()[j]
                    == self.sched().payloads()[j] by {
                    assert(prev.sched().pending(j));
                }
            }
            k = k + 1;
        }
        engine
    }

    /// Steps until the current tick reaches `target_tick`; nothing happens when
    /// it is there already. This is exactly a run of `step`, one per tick.
    pub fn step_until<W>(&mut self, target_tick: u64, world: &mut W) where E: Event<W>
        requires
            old(self).wf(),
        ensures
            final(self).wf(),
            final(self).tick() == if old(self).tick() < target_tick {
                target_tick
            } else {
                old(self).tick()
            },
            exists|trace: Seq<Self>|
                #[trigger] Self::is_run(trace) && trace.len() == final(self).tick() - old(self).tick() + 1
                    && trace[0] == *old(self) && trace.last() == *final(self),
            old(self).tick() >= target_tick ==> *final(self) == *old(self) && *final(world)
                == *old(world),
    {
        let ghost mut trace: Seq<Self> = seq![*self];
        while self.scheduler.current_tick() < target_tick
            invariant
                self.wf(),
                old(self).tick() <= self.tick(),
                old(self).tick() < target_tick ==> self.tick() <= target_tick,
                old(self).tick() >= target_tick ==> self.tick() == old(self).tick(),
                self.tick() == old(self).tick() ==> *self == *old(self) && *world == *old(world),
                trace.len() == self.tick() - old(self).tick() + 1,
                trace[0] == *old(self),
                trace.last() == *self,
                Self::is_run(trace),
            decreases target_tick - self.tick(),
        {
            let ghost prev = trace;
            self.step(world);
            proof {
                trace = trace.push(*self);
                assert forall|i: int| 0 <= i < trace.len() - 1 implies #[trigger] Self::stepped(
                    trace[i],
                    trace[i + 1],
                ) by {
                    if i < trace.len() - 2 {
                        assert(trace[i] == prev[i] && trace[i + 1] == prev[i + 1]);
                    }
                }
            }
        }
        proof {
            assert(Self::is_run(trace));
        }
    }

    /// The number of pending entries, cancelled ones included.
    pub fn get_queue_size(&self) -> (r: usize)
        ensures
            r == self.sched().keys().len(),
    {
        self.scheduler.len()
    }

    /// The number of events run so far (saturating at `u64::MAX`).
    pub fn get_total_events_executed(&self) -> (r: u64)
        ensures
            r == self.total(),
    {
        self.total_events_executed
    }

    /// The current tick: 0 before the first `step`, then one more per `step`.
    pub fn get_current_tick(&self) -> (r: u64)
        ensures
            r == self.tick(),
    {
        self.scheduler.current_tick()
    }

    /// The per-tick execution budget.
    pub fn get_max_executions_per_tick(&self) -> (r: u64)
        ensures
            r == self.budget(),
    {
        self.max_executions_per_tick
    }

    /// The scheduler, to inspect pending entries and cancellations.
    pub fn scheduler(&self) -> (r: &Scheduler<E>)
        ensures
            *r == self.sched(),
    {
        &self.scheduler
    }
}

} // verus!
