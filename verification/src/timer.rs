//! Timer registry.
//!
//! A pool of timers and a global tick counter. Armed timers wait in a list
//! that is sorted by deadline; when the counter reaches a deadline the
//! timer's payload is queued as an event.

use crate::fifo::FIFO;
use vstd::prelude::*;

verus! {

/// Number of timers in the pool.
pub const MAX_TIMER: usize = 100;

/// The life cycle of a timer slot.
#[derive(Clone, Copy, PartialEq, Eq, Debug, Structural)]
pub enum TimerState {
    /// Free for allocation.
    Unused,
    /// Owned by somebody and fired: its deadline has come and its payload
    /// was queued.
    Allocated,
    /// Owned by somebody and not fired since it was handed out or armed: the
    /// state of every timer that waits for its deadline.
    Using,
}

/// One timer of the pool.
#[derive(Clone, Copy, Debug)]
pub struct TIMER<T: Copy> {
    /// The tick at which the timer fires.
    pub timeout: u32,
    pub flag: TimerState,
    /// The payload that is queued when the timer fires.
    pub data: T,
}

impl<T: Copy> TIMER<T> {
    /// An unused timer with payload `data`.
    pub fn new(data: T) -> (timer: Self)
        ensures
            timer.timeout == 0,
            timer.flag == TimerState::Unused,
            timer.data == data,
    {
        Self { timeout: 0, flag: TimerState::Unused, data }
    }

    /// Queues the payload to notify the timeout. Fails, with the queue
    /// untouched, when the queue is full.
    pub fn push_timeout_signal(&self, queue: &mut FIFO<T>) -> (res: Result<(), ()>)
        requires
            old(queue).wf(),
        ensures
            final(queue).wf(),
            final(queue).capacity() == old(queue).capacity(),
            res.is_ok() <==> old(queue)@.len() < old(queue).capacity(),
            final(queue)@ == crate::fifo::spec_push(old(queue)@, old(queue).capacity(), self.data),
    {
        queue.push(self.data)
    }

    /// Returns the timer to the unused state.
    pub fn deallocate(&mut self)
        ensures
            final(self).flag == TimerState::Unused,
            final(self).timeout == old(self).timeout,
            final(self).data == old(self).data,
    {
        self.flag = TimerState::Unused;
    }
}

/// The index of the first deadline that lies after tick `t`, or the number
/// of deadlines if none does.
pub open spec fn first_after(deadlines: Seq<u32>, t: u32) -> int
    decreases deadlines.len(),
{
    if deadlines.len() == 0 || deadlines[0] > t {
        0
    } else {
        1 + first_after(deadlines.subrange(1, deadlines.len() as int), t)
    }
}

/// Ascending order, ties allowed.
pub open spec fn sorted(deadlines: Seq<u32>) -> bool {
    forall|i: int, j: int| 0 <= i <= j < deadlines.len() ==> deadlines[i] <= deadlines[j]
}

/// `first_after` lies within the sequence, everything before it is at most
/// `t`, and the deadline at it, if there is one, is later than `t`.
pub proof fn lemma_first_after(deadlines: Seq<u32>, t: u32)
    ensures
        0 <= first_after(deadlines, t) <= deadlines.len(),
        forall|j: int| 0 <= j < first_after(deadlines, t) ==> deadlines[j] <= t,
        first_after(deadlines, t) < deadlines.len() ==> deadlines[first_after(deadlines, t)] > t,
    decreases deadlines.len(),
{
    if deadlines.len() == 0 || deadlines[0] > t {
    } else {
        let rest = deadlines.subrange(1, deadlines.len() as int);
        lemma_first_after(rest, t);
        assert forall|j: int| 0 <= j < first_after(deadlines, t) implies deadlines[j] <= t by {
            if j > 0 {
                assert(rest[j - 1] == deadlines[j]);
            }
        }
        if first_after(deadlines, t) < deadlines.len() {
            assert(rest[first_after(rest, t)] == deadlines[first_after(deadlines, t)]);
        }
    }
}

/// An index with the two properties of `first_after` is `first_after`.
pub proof fn lemma_first_after_unique(deadlines: Seq<u32>, t: u32, n: int)
    requires
        0 <= n <= deadlines.len(),
        forall|j: int| 0 <= j < n ==> deadlines[j] <= t,
        n < deadlines.len() ==> deadlines[n] > t,
    ensures
        first_after(deadlines, t) == n,
{
    lemma_first_after(deadlines, t);
    let r = first_after(deadlines, t);
    if r < n {
        assert(deadlines[r] <= t);
    } else if n < r {
        assert(deadlines[n] <= t);
    }
}

/// In a sorted sequence every deadline from `first_after` on is later than `t`.
pub proof fn lemma_first_after_sorted(deadlines: Seq<u32>, t: u32)
    requires
        sorted(deadlines),
    ensures
        forall|j: int| first_after(deadlines, t) <= j < deadlines.len() ==> deadlines[j] > t,
{
    lemma_first_after(deadlines, t);
}

/// Whether `id` is among the first `n` entries of `list`.
pub open spec fn listed_before(list: Seq<usize>, n: int, id: usize) -> bool {
    exists|k: int| 0 <= k < n && k < list.len() && #[trigger] list[k] == id
}

/// The registry: the tick counter, the pool, and the list of waiting timers.
pub struct TIMERCTL<T: Copy> {
    /// Ticks since start; it goes up by one every hundredth of a second.
    pub count: u32,
    /// The earliest deadline among the waiting timers, `u32::MAX` if none waits.
    pub next: u32,
    pub timers: Vec<TIMER<T>>,
    /// The indices of the waiting timers, sorted by deadline, earliest first.
    pub used_timers: Vec<usize>,
}

impl<T: Copy> TIMERCTL<T> {
    /// The deadlines of the waiting timers, in list order.
    pub open spec fn deadlines(self) -> Seq<u32> {
        Seq::new(
            self.used_timers@.len(),
            |i: int| self.timers@[self.used_timers@[i] as int].timeout,
        )
    }

    /// The payloads of the waiting timers, in list order.
    pub open spec fn payloads(self) -> Seq<T> {
        Seq::new(self.used_timers@.len(), |i: int| self.timers@[self.used_timers@[i] as int].data)
    }

    /// The state of every timer of the pool, by index.
    pub open spec fn states(self) -> Seq<TimerState> {
        Seq::new(self.timers@.len(), |i: int| self.timers@[i].flag)
    }

    /// The deadline that `next` caches.
    pub open spec fn next_deadline(self) -> u32 {
        if self.used_timers@.len() > 0 {
            self.timers@[self.used_timers@[0] as int].timeout
        } else {
            u32::MAX
        }
    }

    /// How many waiting timers have reached their deadline.
    pub open spec fn due(self) -> int {
        first_after(self.deadlines(), self.count)
    }

    /// The registry's invariant: the pool is complete; every listed timer
    /// exists, waits, and is listed once; the list is sorted by deadline; and
    /// `next` is the deadline at its front.
    pub open spec fn wf(self) -> bool {
        &&& self.timers@.len() == MAX_TIMER
        &&& forall|i: int|
            0 <= i < self.used_timers@.len() ==> (#[trigger] self.used_timers@[i]) < MAX_TIMER
        &&& forall|i: int|
            0 <= i < self.used_timers@.len() ==> self.timers@[(#[trigger] self.used_timers@[i]) as int].flag
                == TimerState::Using
        &&& self.used_timers@.no_duplicates()
        &&& sorted(self.deadlines())
        &&& self.next == self.next_deadline()
    }

    /// The waiting list is in order. In a registry that its operations have
    /// made, the waiting timers are sorted by deadline, earliest first; each
    /// of them is in use and listed once; and `next` is the deadline of the
    /// first of them, or `u32::MAX` if none waits.
    pub proof fn lemma_waiting_sorted(self)
        requires
            self.wf(),
        ensures
            forall|i: int, j: int|
                0 <= i <= j < self.used_timers@.len() ==> self.timers@[self.used_timers@[i] as int].timeout
                    <= self.timers@[self.used_timers@[j] as int].timeout,
            forall|i: int, j: int|
                0 <= i < j < self.used_timers@.len() ==> self.used_timers@[i] != self.used_timers@[j],
            forall|i: int|
                0 <= i < self.used_timers@.len() ==> self.used_timers@[i] < MAX_TIMER
                    && self.timers@[self.used_timers@[i] as int].flag == TimerState::Using,
            self.used_timers@.len() > 0 ==> self.next == self.timers@[self.used_timers@[0] as int].timeout,
            self.used_timers@.len() == 0 ==> self.next == u32::MAX,
    {
        let list = self.used_timers@;
        assert forall|i: int, j: int| 0 <= i <= j < list.len() implies self.timers@[list[i] as int].timeout
            <= self.timers@[list[j] as int].timeout by {
            assert(self.deadlines()[i] <= self.deadlines()[j]);
        }
    }

    /// A timer fires on its deadline, not before. The timers that the next
    /// `shift_timers` takes from the front of the waiting list, as far as
    /// the queue has room, are exactly those whose deadline is at most the
    /// tick count.
    pub proof fn lemma_due_on_deadline(self)
        requires
            self.wf(),
        ensures
            0 <= self.due() <= self.used_timers@.len(),
            forall|i: int|
                0 <= i < self.used_timers@.len()
                    ==> (i < self.due() <==> self.timers@[self.used_timers@[i] as int].timeout
                    <= self.count),
    {
        lemma_first_after(self.deadlines(), self.count);
        lemma_first_after_sorted(self.deadlines(), self.count);
        assert forall|i: int| 0 <= i < self.used_timers@.len() implies (i < self.due()
            <==> self.timers@[self.used_timers@[i] as int].timeout <= self.count) by {
            assert(self.deadlines()[i] == self.timers@[self.used_timers@[i] as int].timeout);
        }
    }

    /// A registry at tick zero whose timers are all unused and carry `data`.
    pub fn new(data: T) -> (ctl: Self)
        ensures
            ctl.wf(),
            ctl.count == 0,
            ctl.next == u32::MAX,
            ctl.used_timers@.len() == 0,
            forall|i: int|
                0 <= i < MAX_TIMER ==> ctl.timers@[i] == (TIMER { timeout: 0, flag: TimerState::Unused, data }),
    {
        let mut timers: Vec<TIMER<T>> = Vec::new();
        let mut i: usize = 0;
        while i < MAX_TIMER
            invariant
                i <= MAX_TIMER,
                timers@.len() == i,
                forall|k: int| 0 <= k < i ==> timers@[k]
                    == (TIMER { timeout: 0, flag: TimerState::Unused, data }),
            decreases MAX_TIMER - i,
        {
            timers.push(TIMER::new(data));
            i += 1;
        }
        Self { count: 0, next: u32::MAX, timers, used_timers: Vec::new() }
    }

    /// Hands out the unused timer with the lowest index and marks it as in
    /// use, or returns `None` when no timer is unused.
    pub fn allocate(&mut self) -> (res: Option<usize>)
        requires
            old(self).wf(),
        ensures
            final(self).wf(),
            res == spec_allocate(old(self).states()),
            res is None <==> forall|i: int|
                0 <= i < MAX_TIMER ==> (#[trigger] old(self).timers@[i]).flag != TimerState::Unused,
            res matches Some(id) ==> id < MAX_TIMER && old(self).timers@[id as int].flag == TimerState::Unused
                && forall|k: int| 0 <= k < id ==> (#[trigger] old(self).timers@[k]).flag != TimerState::Unused,
            final(self).states() == after_allocate(old(self).states()),
            final(self).count == old(self).count,
            final(self).next == old(self).next,
            final(self).used_timers == old(self).used_timers,
            forall|i: int|
                0 <= i < MAX_TIMER ==> (#[trigger] final(self).timers@[i]).timeout
                    == old(self).timers@[i].timeout
                    && final(self).timers@[i].data == old(self).timers@[i].data,
    {
        let mut i: usize = 0;
        while i < MAX_TIMER
            invariant
                i <= MAX_TIMER,
                *self == *old(self),
                self.wf(),
                forall|k: int| 0 <= k < i ==> self.timers@[k].flag != TimerState::Unused,
            decreases MAX_TIMER - i,
        {
            if self.timers[i].flag == TimerState::Unused {
                self.timers[i].flag = TimerState::Using;
                proof {
                    lemma_first_unused_unique(old(self).states(), i as int);
                    assert(self.states() =~= after_allocate(old(self).states()));
                    assert(self.deadlines() =~= old(self).deadlines());
                }
                return Some(i);
            }
            i += 1;
        }
        proof {
            lemma_first_unused_unique(old(self).states(), MAX_TIMER as int);
            assert(self.states() =~= after_allocate(old(self).states()));
        }
        return None;
    }

    /// Returns timer `id` to the pool. The timer must not be waiting.
    pub fn deallocate(&mut self, id: usize)
        requires
            old(self).wf(),
            id < MAX_TIMER,
            !old(self).used_timers@.contains(id),
        ensures
            final(self).wf(),
            final(self).count == old(self).count,
            final(self).next == old(self).next,
            final(self).used_timers == old(self).used_timers,
            final(self).timers@ == old(self).timers@.update(
                id as int,
                TIMER { flag: TimerState::Unused, ..old(self).timers@[id as int] },
            ),
    {
        self.timers[id].flag = TimerState::Unused;
        proof {
            assert(self.timers@ =~= old(self).timers@.update(
                id as int,
                TIMER { flag: TimerState::Unused, ..old(self).timers@[id as int] },
            ));
            assert(self.deadlines() =~= old(self).deadlines());
            assert forall|i: int| 0 <= i < self.used_timers@.len() implies self.timers@[(
            #[trigger] self.used_timers@[i]) as int].flag == TimerState::Using by {
                assert(old(self).used_timers@.contains(self.used_timers@[i]));
            }
        }
    }

    /// The waiting list without timer `id`.
    pub open spec fn others(self, id: usize) -> Seq<usize> {
        if self.used_timers@.contains(id) {
            self.used_timers@.remove(self.used_timers@.index_of(id))
        } else {
            self.used_timers@
        }
    }

    /// The deadlines of the waiting timers other than `id`, in list order.
    pub open spec fn other_deadlines(self, id: usize) -> Seq<u32> {
        Seq::new(self.others(id).len(), |i: int| self.timers@[self.others(id)[i] as int].timeout)
    }

    /// Arms timer `id` to fire `wait_time` ticks from now.
    ///
    /// The timer is put into the waiting list in front of the first timer
    /// whose deadline is later than its own, so that timers with equal
    /// deadlines fire in the order in which they were armed. A timer that is
    /// waiting already is taken out of the list first: it waits once, for
    /// its new deadline.
    pub fn set_time(&mut self, id: usize, wait_time: u32)
        requires
            old(self).wf(),
            id < MAX_TIMER,
            old(self).count + wait_time <= u32::MAX,
        ensures
            final(self).wf(),
            final(self).count == old(self).count,
            final(self).timers@ == old(self).timers@.update(
                id as int,
                TIMER {
                    timeout: (old(self).count + wait_time) as u32,
                    flag: TimerState::Using,
                    data: old(self).timers@[id as int].data,
                },
            ),
            final(self).used_timers@ == old(self).others(id).insert(
                first_after(old(self).other_deadlines(id), (old(self).count + wait_time) as u32),
                id,
            ),
            sorted(final(self).deadlines()),
            final(self).next == final(self).deadlines()[0],
    {
        let timeout = self.count + wait_time;
        let ghost rest = self.others(id);
        let ghost rest_deadlines = self.other_deadlines(id);
        let mut i: usize = 0;
        let mut found = false;
        while i < self.used_timers.len() && !found
            invariant
                *self == *old(self),
                self.wf(),
                i <= self.used_timers@.len(),
                !found ==> forall|k: int| 0 <= k < i ==> self.used_timers@[k] != id,
                found ==> i < self.used_timers@.len() && self.used_timers@[i as int] == id,
            decreases self.used_timers@.len() - i + (if found { 0int } else { 1int }),
        {
            if self.used_timers[i] == id {
                found = true;
            } else {
                i += 1;
            }
        }
        if found {
            proof {
                assert(self.used_timers@.contains(id));
                let j = self.used_timers@.index_of(id);
                assert(self.used_timers@[j] == id);
                assert(j == i);
            }
            self.used_timers.remove(i);
        }
        assert(self.used_timers@ == rest);
        assert(!rest.contains(id)) by {
            if rest.contains(id) {
                let k = choose|k: int| 0 <= k < rest.len() && rest[k] == id;
                if found {
                    if k < i {
                        assert(old(self).used_timers@[k] == id);
                    } else {
                        assert(old(self).used_timers@[k + 1] == id);
                    }
                } else {
                    assert(old(self).used_timers@[k] != id);
                }
            }
        }
        assert forall|a: int| 0 <= a < rest.len() implies (#[trigger] rest[a]) < MAX_TIMER
            && old(self).timers@[rest[a] as int].flag == TimerState::Using && rest[a] != id by {
            assert(rest.contains(rest[a]));
            if found && a >= i {
                assert(rest[a] == old(self).used_timers@[a + 1]);
            } else {
                assert(rest[a] == old(self).used_timers@[a]);
            }
        }
        assert(rest.no_duplicates()) by {
            assert forall|a: int, b: int| 0 <= a < rest.len() && 0 <= b < rest.len() && a != b implies rest[a]
                != rest[b] by {
                let a0 = if found && a >= i { a + 1 } else { a };
                let b0 = if found && b >= i { b + 1 } else { b };
                assert(rest[a] == old(self).used_timers@[a0]);
                assert(rest[b] == old(self).used_timers@[b0]);
            }
        }
        assert(sorted(rest_deadlines)) by {
            assert forall|a: int, b: int| 0 <= a <= b < rest_deadlines.len() implies rest_deadlines[a]
                <= rest_deadlines[b] by {
                let a0 = if found && a >= i { a + 1 } else { a };
                let b0 = if found && b >= i { b + 1 } else { b };
                assert(rest[a] == old(self).used_timers@[a0]);
                assert(rest[b] == old(self).used_timers@[b0]);
                assert(rest_deadlines[a] == old(self).deadlines()[a0]);
                assert(rest_deadlines[b] == old(self).deadlines()[b0]);
            }
        }
        self.timers[id].timeout = timeout;
        self.timers[id].flag = TimerState::Using;
        let mut index_to_push: usize = 0;
        while index_to_push < self.used_timers.len() && self.timers[self.used_timers[index_to_push]].timeout
            <= timeout
            invariant
                self.timers@.len() == MAX_TIMER,
                self.used_timers@ == rest,
                index_to_push <= rest.len(),
                rest_deadlines.len() == rest.len(),
                forall|a: int| 0 <= a < rest.len() ==> (#[trigger] rest[a]) < MAX_TIMER && rest[a] != id,
                forall|a: int|
                    0 <= a < rest.len() ==> self.timers@[rest[a] as int].timeout
                        == #[trigger] rest_deadlines[a],
                forall|a: int| 0 <= a < index_to_push ==> rest_deadlines[a] <= timeout,
            decreases rest.len() - index_to_push,
        {
            index_to_push += 1;
        }
        proof {
            assert(index_to_push < rest.len() ==> rest_deadlines[index_to_push as int] > timeout);
            lemma_first_after_unique(rest_deadlines, timeout, index_to_push as int);
        }
        self.used_timers.insert(index_to_push, id);
        self.next = self.timers[self.used_timers[0]].timeout;
        proof {
            let pos = index_to_push as int;
            let list = self.used_timers@;
            assert(list == rest.insert(pos, id));
            assert(self.timers@ =~= old(self).timers@.update(
                id as int,
                TIMER {
                    timeout,
                    flag: TimerState::Using,
                    data: old(self).timers@[id as int].data,
                },
            ));
            assert forall|a: int| 0 <= a < list.len() implies (#[trigger] list[a]) < MAX_TIMER
                && self.timers@[list[a] as int].flag == TimerState::Using by {
                if a < pos {
                    assert(list[a] == rest[a]);
                } else if a > pos {
                    assert(list[a] == rest[a - 1]);
                }
            }
            assert forall|a: int, b: int| 0 <= a < list.len() && 0 <= b < list.len() && a != b implies list[a]
                != list[b] by {
                let a0 = if a > pos { a - 1 } else { a };
                let b0 = if b > pos { b - 1 } else { b };
                if a != pos {
                    assert(list[a] == rest[a0]);
                }
                if b != pos {
                    assert(list[b] == rest[b0]);
                }
            }
            let d = self.deadlines();
            assert forall|a: int| 0 <= a < list.len() implies d[a] == (if a < pos {
                rest_deadlines[a]
            } else if a == pos {
                timeout
            } else {
                rest_deadlines[a - 1]
            }) by {
                if a < pos {
                    assert(list[a] == rest[a]);
                } else if a > pos {
                    assert(list[a] == rest[a - 1]);
                }
            }
            lemma_first_after_sorted(rest_deadlines, timeout);
            assert(sorted(d));
        }
    }

    /// Fires the waiting timers whose deadline has come.
    ///
    /// Walks the waiting list from its front while the deadline is at most
    /// the current tick: the timer's payload is queued, the timer is marked
    /// `Allocated` and leaves the list. The walk ends early, and the result
    /// is an error, when the queue is full: the timers that are still due
    /// stay in the list and fire on a later call.
    pub fn shift_timers(&mut self, queue: &mut FIFO<T>) -> (res: Result<(), ()>)
        requires
            old(self).wf(),
            old(queue).wf(),
        ensures
            final(self).wf(),
            final(queue).wf(),
            final(queue).capacity() == old(queue).capacity(),
            final(self).count == old(self).count,
            final(self).timers@.len() == MAX_TIMER,
            ({
                let free = old(queue).capacity() - old(queue)@.len();
                let fired = if old(self).due() <= free {
                    old(self).due()
                } else {
                    free
                };
                &&& res.is_ok() <==> old(self).due() <= free
                &&& final(self).used_timers@ == old(self).used_timers@.subrange(
                    fired,
                    old(self).used_timers@.len() as int,
                )
                &&& final(queue)@ == old(queue)@ + old(self).payloads().subrange(0, fired)
                &&& forall|id: int|
                    0 <= id < MAX_TIMER ==> #[trigger] final(self).timers@[id] == (if listed_before(
                        old(self).used_timers@,
                        fired,
                        id as usize,
                    ) {
                        TIMER { flag: TimerState::Allocated, ..old(self).timers@[id] }
                    } else {
                        old(self).timers@[id]
                    })
                &&& forall|i: int| 0 <= i < fired ==> old(self).deadlines()[i] <= old(self).count
            }),
            res.is_ok() ==> forall|i: int|
                0 <= i < final(self).used_timers@.len() ==> final(self).deadlines()[i] > final(self).count,
    {
        let ghost list = self.used_timers@;
        let ghost d = self.deadlines();
        let ghost pay = self.payloads();
        let ghost free = queue.capacity() - queue@.len();
        proof {
            queue.lemma_len_bounded();
            lemma_first_after(d, self.count);
        }
        let mut num_of_timeouts: usize = 0;
        let mut blocked = false;
        while !blocked && num_of_timeouts < self.used_timers.len()
            && self.timers[self.used_timers[num_of_timeouts]].timeout
            <= self.count
            invariant
                old(self).wf(),
                self.timers@.len() == MAX_TIMER,
                self.used_timers@ == list,
                self.count == old(self).count,
                self.next == old(self).next,
                list == old(self).used_timers@,
                d == old(self).deadlines(),
                pay == old(self).payloads(),
                num_of_timeouts <= list.len(),
                queue.wf(),
                queue.capacity() == old(queue).capacity(),
                free == old(queue).capacity() - old(queue)@.len(),
                queue@ == old(queue)@ + pay.subrange(0, num_of_timeouts as int),
                queue@.len() <= queue.capacity(),
                forall|i: int| 0 <= i < num_of_timeouts ==> d[i] <= self.count,
                blocked ==> num_of_timeouts < list.len() && d[num_of_timeouts as int] <= self.count
                    && num_of_timeouts == free,
                forall|id: int|
                    0 <= id < MAX_TIMER ==> #[trigger] self.timers@[id] == (if listed_before(
                        list,
                        num_of_timeouts as int,
                        id as usize,
                    ) {
                        TIMER { flag: TimerState::Allocated, ..old(self).timers@[id] }
                    } else {
                        old(self).timers@[id]
                    }),
            decreases list.len() - num_of_timeouts + (if blocked { 0int } else { 1int }),
        {
            let timer_id = self.used_timers[num_of_timeouts];
            let ghost n = num_of_timeouts as int;
            assert(!listed_before(list, n, timer_id));
            assert(self.timers@[timer_id as int].data == pay[n]);
            assert(self.timers@[timer_id as int].timeout == d[n]);
            let pushed = self.timers[timer_id].push_timeout_signal(queue);
            if pushed.is_ok() {
                self.timers[timer_id].flag = TimerState::Allocated;
                num_of_timeouts += 1;
                proof {
                    assert(queue@ =~= old(queue)@ + pay.subrange(0, n + 1)) by {
                        assert(pay.subrange(0, n + 1) =~= pay.subrange(0, n).push(pay[n]));
                    }
                    assert forall|id: int| 0 <= id < MAX_TIMER implies #[trigger] self.timers@[id] == (
                    if listed_before(list, n + 1, id as usize) {
                        TIMER { flag: TimerState::Allocated, ..old(self).timers@[id] }
                    } else {
                        old(self).timers@[id]
                    }) by {
                        if id == timer_id {
                            assert(list[n] == id as usize);
                        } else if listed_before(list, n + 1, id as usize) {
                            let k = choose|k: int|
                                0 <= k < n + 1 && k < list.len() && #[trigger] list[k] == id as usize;
                            assert(k < n);
                        }
                    }
                }
            } else {
                blocked = true;
            }
        }
        let ghost fired = num_of_timeouts as int;
        proof {
            if !blocked {
                if fired < list.len() {
                    assert(!listed_before(list, fired, list[fired]));
                    assert(d[fired] > self.count);
                }
                lemma_first_after_unique(d, self.count, fired);
            } else {
                assert(first_after(d, self.count) > fired) by {
                    if first_after(d, self.count) <= fired {
                        assert(d[first_after(d, self.count)] > self.count);
                        assert(d[first_after(d, self.count)] <= d[fired]);
                    }
                }
            }
        }
        self.used_timers = self.used_timers.split_off(num_of_timeouts);
        if self.used_timers.len() > 0 {
            self.next = self.timers[self.used_timers[0]].timeout;
        } else {
            self.next = u32::MAX;
        }
        proof {
            let rest = self.used_timers@;
            assert(rest == list.subrange(fired, list.len() as int));
            assert forall|a: int| 0 <= a < rest.len()
                implies !listed_before(list, fired, #[trigger] rest[a]) by {
                assert(rest[a] == list[a + fired]);
            }
            assert forall|a: int| 0 <= a < rest.len() implies (#[trigger] self.deadlines()[a]) == d[a
                + fired] by {
                assert(rest[a] == list[a + fired]);
            }
            assert(rest.no_duplicates()) by {
                assert forall|a: int, b: int|
                    0 <= a < rest.len() && 0 <= b < rest.len() && a != b implies rest[a] != rest[b] by {
                    assert(rest[a] == list[a + fired]);
                    assert(rest[b] == list[b + fired]);
                }
            }
            assert forall|a: int| 0 <= a < rest.len() implies (#[trigger] rest[a]) < MAX_TIMER
                && self.timers@[rest[a] as int].flag == TimerState::Using by {
                assert(rest[a] == list[a + fired]);
            }
            if !blocked {
                lemma_first_after_sorted(d, self.count);
            }
        }
        if blocked {
            Err(())
        } else {
            Ok(())
        }
    }

    /// One tick of the clock: the counter goes up by one, then the timers
    /// that are due fire as `shift_timers` describes.
    pub fn advance_tick(&mut self, queue: &mut FIFO<T>) -> (res: Result<(), ()>)
        requires
            old(self).wf(),
            old(queue).wf(),
            old(self).count < u32::MAX,
        ensures
            final(self).wf(),
            final(queue).wf(),
            final(queue).capacity() == old(queue).capacity(),
            final(self).count == old(self).count + 1,
            ({
                let ticked = TIMERCTL { count: (old(self).count + 1) as u32, ..*old(self) };
                let free = old(queue).capacity() - old(queue)@.len();
                let fired = if ticked.due() <= free {
                    ticked.due()
                } else {
                    free
                };
                &&& res.is_ok() <==> ticked.due() <= free
                &&& final(self).used_timers@ == old(self).used_timers@.subrange(
                    fired,
                    old(self).used_timers@.len() as int,
                )
                &&& final(queue)@ == old(queue)@ + old(self).payloads().subrange(0, fired)
                &&& forall|id: int|
                    0 <= id < MAX_TIMER ==> #[trigger] final(self).timers@[id] == (if listed_before(
                        old(self).used_timers@,
                        fired,
                        id as usize,
                    ) {
                        TIMER { flag: TimerState::Allocated, ..old(self).timers@[id] }
                    } else {
                        old(self).timers@[id]
                    })
                &&& forall|i: int| 0 <= i < fired ==> old(self).deadlines()[i] <= final(self).count
            }),
            res.is_ok() ==> forall|i: int|
                0 <= i < final(self).used_timers@.len() ==> final(self).deadlines()[i] > final(self).count,
    {
        self.count += 1;
        proof {
            let ticked = TIMERCTL { count: (old(self).count + 1) as u32, ..*old(self) };
            assert(*self == ticked);
            assert(self.deadlines() =~= old(self).deadlines());
            assert(self.payloads() =~= old(self).payloads());
        }
        self.shift_timers(queue)
    }
}

/// The lowest index whose state is `Unused`, or the length if there is none.
pub open spec fn first_unused(states: Seq<TimerState>) -> int
    decreases states.len(),
{
    if states.len() == 0 || states[0] == TimerState::Unused {
        0
    } else {
        1 + first_unused(states.subrange(1, states.len() as int))
    }
}

/// What an allocation from a pool in these states returns.
pub open spec fn spec_allocate(states: Seq<TimerState>) -> Option<usize> {
    if first_unused(states) < states.len() {
        Some(first_unused(states) as usize)
    } else {
        None
    }
}

/// The states of the pool after an allocation.
pub open spec fn after_allocate(states: Seq<TimerState>) -> Seq<TimerState> {
    if first_unused(states) < states.len() {
        states.update(first_unused(states), TimerState::Using)
    } else {
        states
    }
}

/// An index below which nothing is unused, and which is unused itself or is
/// the length, is `first_unused`.
pub proof fn lemma_first_unused_unique(states: Seq<TimerState>, n: int)
    requires
        0 <= n <= states.len(),
        forall|k: int| 0 <= k < n ==> states[k] != TimerState::Unused,
        n < states.len() ==> states[n] == TimerState::Unused,
    ensures
        first_unused(states) == n,
    decreases states.len(),
{
    if states.len() == 0 || states[0] == TimerState::Unused {
        if n > 0 {
            assert(states[0] != TimerState::Unused);
        }
    } else {
        let rest = states.subrange(1, states.len() as int);
        assert forall|k: int| 0 <= k < n - 1 implies rest[k] != TimerState::Unused by {
            assert(rest[k] == states[k + 1]);
        }
        if n < states.len() {
            assert(rest[n - 1] == states[n]);
        }
        lemma_first_unused_unique(rest, n - 1);
    }
}

/// The states of the pool after `n` allocations in a row.
pub open spec fn after_allocations(states: Seq<TimerState>, n: nat) -> Seq<TimerState>
    decreases n,
{
    if n == 0 {
        states
    } else {
        after_allocate(after_allocations(states, (n - 1) as nat))
    }
}

/// `n` allocations in a row leave none of the first `n` timers unused.
pub proof fn lemma_allocations_fill(states: Seq<TimerState>, n: nat)
    ensures
        after_allocations(states, n).len() == states.len(),
        forall|j: int|
            0 <= j < n && j < states.len() ==> after_allocations(states, n)[j] != TimerState::Unused,
    decreases n,
{
    if n > 0 {
        let before = after_allocations(states, (n - 1) as nat);
        lemma_allocations_fill(states, (n - 1) as nat);
        lemma_first_unused(before);
    }
}

/// `first_unused` lies within the sequence, nothing before it is unused, and
/// the timer at it, if there is one, is unused.
pub proof fn lemma_first_unused(states: Seq<TimerState>)
    ensures
        0 <= first_unused(states) <= states.len(),
        forall|k: int| 0 <= k < first_unused(states) ==> states[k] != TimerState::Unused,
        first_unused(states) < states.len() ==> states[first_unused(states)] == TimerState::Unused,
    decreases states.len(),
{
    if states.len() == 0 || states[0] == TimerState::Unused {
    } else {
        let rest = states.subrange(1, states.len() as int);
        lemma_first_unused(rest);
        assert forall|k: int| 0 <= k < first_unused(states) implies states[k] != TimerState::Unused by {
            if k > 0 {
                assert(rest[k - 1] == states[k]);
            }
        }
        if first_unused(states) < states.len() {
            assert(rest[first_unused(rest)] == states[first_unused(states)]);
        }
    }
}

/// The pool runs dry. Whatever the states of a pool of `MAX_TIMER` timers,
/// after `MAX_TIMER` allocations with no deallocation between them the next
/// allocation returns `None`. From a pool whose timers are all unused, the
/// allocations before that hand out the timers in index order.
pub proof fn lemma_pool_exhaustion(states: Seq<TimerState>, k: nat)
    requires
        states.len() == MAX_TIMER,
    ensures
        spec_allocate(after_allocations(states, MAX_TIMER as nat)) is None,
        (forall|i: int| 0 <= i < MAX_TIMER ==> states[i] == TimerState::Unused) && k < MAX_TIMER
            ==> spec_allocate(after_allocations(states, k)) == Some(k as usize),
{
    let full = after_allocations(states, MAX_TIMER as nat);
    lemma_allocations_fill(states, MAX_TIMER as nat);
    lemma_first_unused(full);
    if (forall|i: int| 0 <= i < MAX_TIMER ==> states[i] == TimerState::Unused) && k < MAX_TIMER {
        lemma_fresh_allocations(states, k);
        lemma_first_unused_unique(after_allocations(states, k), k as int);
    }
}

/// After `k` allocations from a pool whose timers were all unused, exactly
/// the first `k` timers are in use.
proof fn lemma_fresh_allocations(states: Seq<TimerState>, k: nat)
    requires
        k <= states.len(),
        forall|i: int| 0 <= i < states.len() ==> states[i] == TimerState::Unused,
    ensures
        after_allocations(states, k).len() == states.len(),
        forall|i: int|
            0 <= i < states.len() ==> after_allocations(states, k)[i] == (if i < k {
                TimerState::Using
            } else {
                TimerState::Unused
            }),
    decreases k,
{
    if k > 0 {
        let before = after_allocations(states, (k - 1) as nat);
        lemma_fresh_allocations(states, (k - 1) as nat);
        lemma_first_unused_unique(before, k - 1);
    }
}

} // verus!
