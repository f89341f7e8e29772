//! The timers of the main loop: two that fire once, after three and after
//! ten seconds, and one that ticks every second.

use crate::timer::{
    after_allocate, after_allocations, first_after, lemma_first_after, lemma_first_after_unique,
    lemma_first_unused, spec_allocate, TimerState, MAX_TIMER, TIMER, TIMERCTL,
};
use vstd::prelude::*;

verus! {

/// Ticks until the ten-second timer fires.
pub const TEN_SECONDS: u32 = 1000;

/// Ticks until the three-second timer fires.
pub const THREE_SECONDS: u32 = 300;

/// Ticks between two signals of the ticking timer.
pub const ONE_SECOND: u32 = 100;

/// Putting a deadline later than `t` into a list of deadlines, at or behind
/// the first one later than `t`, does not move the first one later than `t`.
pub proof fn lemma_first_after_insert(deadlines: Seq<u32>, at: int, later: u32, t: u32)
    requires
        first_after(deadlines, t) <= at <= deadlines.len(),
        later > t,
    ensures
        first_after(deadlines.insert(at, later), t) == first_after(deadlines, t),
{
    lemma_first_after(deadlines, t);
    let n = first_after(deadlines, t);
    let grown = deadlines.insert(at, later);
    assert forall|j: int| 0 <= j < n implies grown[j] <= t by {
        assert(grown[j] == deadlines[j]);
    }
    if n < grown.len() {
        if n < at {
            assert(grown[n] == deadlines[n]);
        } else {
            assert(grown[n] == later);
        }
    }
    lemma_first_after_unique(grown, t, n);
}

/// The first deadline later than `t` comes no later in the list than the
/// first deadline later than a later tick.
pub proof fn lemma_first_after_monotone(deadlines: Seq<u32>, t: u32, later: u32)
    requires
        t <= later,
    ensures
        first_after(deadlines, t) <= first_after(deadlines, later),
{
    lemma_first_after(deadlines, t);
    lemma_first_after(deadlines, later);
    if first_after(deadlines, later) < first_after(deadlines, t) {
        assert(deadlines[first_after(deadlines, later)] <= t);
    }
}

/// Arms timer `id` to fire `wait_time` ticks from now with the payload `data`.
pub fn arm(timers: &mut TIMERCTL<u32>, id: usize, wait_time: u32, data: u32)
    requires
        old(timers).wf(),
        id < MAX_TIMER,
        old(timers).count + wait_time <= u32::MAX,
    ensures
        final(timers).wf(),
        final(timers).count == old(timers).count,
        final(timers).timers@ == old(timers).timers@.update(
            id as int,
            TIMER { timeout: (old(timers).count + wait_time) as u32, flag: TimerState::Using, data },
        ),
        final(timers).used_timers@ == old(timers).others(id).insert(
            first_after(old(timers).other_deadlines(id), (old(timers).count + wait_time) as u32),
            id,
        ),
        !old(timers).used_timers@.contains(id) ==> final(timers).deadlines() == old(timers).deadlines().insert(
            first_after(old(timers).deadlines(), (old(timers).count + wait_time) as u32),
            (old(timers).count + wait_time) as u32,
        ) && final(timers).used_timers@ == old(timers).used_timers@.insert(
            first_after(old(timers).deadlines(), (old(timers).count + wait_time) as u32),
            id,
        ),
{
    timers.timers[id].data = data;
    let ghost marked = *timers;
    proof {
        assert(marked.deadlines() =~= old(timers).deadlines());
        assert(marked.other_deadlines(id) =~= old(timers).other_deadlines(id));
    }
    timers.set_time(id, wait_time);
    proof {
        assert(timers.timers@ =~= old(timers).timers@.update(
            id as int,
            TIMER { timeout: (old(timers).count + wait_time) as u32, flag: TimerState::Using, data },
        ));
        if !old(timers).used_timers@.contains(id) {
            let at = first_after(old(timers).deadlines(), (old(timers).count + wait_time) as u32);
            assert(old(timers).other_deadlines(id) =~= old(timers).deadlines());
            lemma_first_after(old(timers).deadlines(), (old(timers).count + wait_time) as u32);
            let list = old(timers).used_timers@;
            assert forall|i: int| 0 <= i < list.len() implies #[trigger] list[i] != id by {
                assert(list.contains(list[i]));
            }
            assert(timers.deadlines() =~= old(timers).deadlines().insert(
                at,
                (old(timers).count + wait_time) as u32,
            )) by {
                let grown = timers.used_timers@;
                assert forall|i: int| 0 <= i < grown.len() implies #[trigger] timers.deadlines()[i]
                    == old(timers).deadlines().insert(at, (old(timers).count + wait_time) as u32)[i] by {
                    if i < at {
                        assert(grown[i] == list[i]);
                    } else if i > at {
                        assert(grown[i] == list[i - 1]);
                    }
                }
            }
        }
    }
}

/// Takes three timers from the pool, or none when fewer than three are
/// unused.
fn allocate_three(timers: &mut TIMERCTL<u32>) -> (res: Option<(usize, usize, usize)>)
    requires
        old(timers).wf(),
    ensures
        final(timers).wf(),
        final(timers).count == old(timers).count,
        final(timers).next == old(timers).next,
        final(timers).used_timers == old(timers).used_timers,
        ({
            let unused = old(timers).states();
            let first = spec_allocate(unused);
            let second = spec_allocate(after_allocations(unused, 1));
            let third = spec_allocate(after_allocations(unused, 2));
            &&& res is Some <==> third is Some
            &&& res is None ==> final(timers).timers@ == old(timers).timers@
            &&& res matches Some(ids) ==> {
                &&& first == Some(ids.0) && second == Some(ids.1) && third == Some(ids.2)
                &&& ids.0 < ids.1 < ids.2 < MAX_TIMER
                &&& old(timers).timers@[ids.0 as int].flag == TimerState::Unused
                &&& old(timers).timers@[ids.1 as int].flag == TimerState::Unused
                &&& old(timers).timers@[ids.2 as int].flag == TimerState::Unused
                &&& final(timers).timers@ == old(timers).timers@.update(
                    ids.0 as int,
                    TIMER { flag: TimerState::Using, ..old(timers).timers@[ids.0 as int] },
                ).update(
                    ids.1 as int,
                    TIMER { flag: TimerState::Using, ..old(timers).timers@[ids.1 as int] },
                ).update(ids.2 as int, TIMER { flag: TimerState::Using, ..old(timers).timers@[ids.2 as int] })
            }
        }),
{
    let ghost o = *timers;
    let ghost unused = timers.states();
    let first = timers.allocate();
    let ghost one = *timers;
    let second = timers.allocate();
    let ghost two = *timers;
    let third = timers.allocate();
    proof {
        assert(after_allocations(unused, 1) == after_allocate(unused)) by {
            assert(after_allocations(unused, 0) == unused);
        }
        assert(after_allocations(unused, 2) == after_allocate(after_allocate(unused)));
        lemma_first_unused(unused);
        lemma_first_unused(after_allocate(unused));
        lemma_first_unused(after_allocations(unused, 2));
        assert forall|i: int| 0 <= i < MAX_TIMER implies (#[trigger] one.timers@[i]) == (TIMER {
            flag: one.states()[i],
            ..o.timers@[i]
        }) && two.timers@[i] == (TIMER { flag: two.states()[i], ..o.timers@[i] }) && timers.timers@[i] == (
        TIMER { flag: timers.states()[i], ..o.timers@[i] }) && o.timers@[i].flag == unused[i] by {}
    }
    match (first, second, third) {
        (Some(a), Some(b), Some(c)) => {
            proof {
                assert(timers.timers@ =~= o.timers@.update(
                    a as int,
                    TIMER { flag: TimerState::Using, ..o.timers@[a as int] },
                ).update(b as int, TIMER { flag: TimerState::Using, ..o.timers@[b as int] }).update(
                    c as int,
                    TIMER { flag: TimerState::Using, ..o.timers@[c as int] },
                ));
            }
            Some((a, b, c))
        },
        _ => {
            match first {
                Some(a) => {
                    timers.timers[a].flag = TimerState::Unused;
                },
                None => {},
            }
            match second {
                Some(b) => {
                    timers.timers[b].flag = TimerState::Unused;
                },
                None => {},
            }
            proof {
                assert(timers.timers@ =~= o.timers@);
                assert(timers.deadlines() =~= o.deadlines());
            }
            None
        },
    }
}

/// Takes three timers from the pool and arms them as the main loop needs
/// them: one for a signal 10 after ten seconds, one for a signal 3 after
/// three seconds, and the ticking timer for a signal 1 after one second.
/// Returns the index of the ticking timer, or `None`, with nothing changed,
/// when fewer than three timers are unused.
pub fn init_timers(timers: &mut TIMERCTL<u32>) -> (res: Option<usize>)
    requires
        old(timers).wf(),
        old(timers).count + TEN_SECONDS <= u32::MAX,
    ensures
        final(timers).wf(),
        final(timers).count == old(timers).count,
        ({
            let unused = old(timers).states();
            let first = spec_allocate(unused);
            let second = spec_allocate(after_allocations(unused, 1));
            let third = spec_allocate(after_allocations(unused, 2));
            let waiting = old(timers).deadlines();
            &&& res == third
            &&& res is None ==> final(timers).timers@ == old(timers).timers@ && final(timers).used_timers
                == old(timers).used_timers
            &&& res is Some ==> {
                &&& first is Some && second is Some
                &&& first->0 < second->0 < third->0 < MAX_TIMER
                &&& final(timers).timers@ == old(timers).timers@.update(
                    first->0 as int,
                    TIMER {
                        timeout: (old(timers).count + TEN_SECONDS) as u32,
                        flag: TimerState::Using,
                        data: 10u32,
                    },
                ).update(
                    second->0 as int,
                    TIMER {
                        timeout: (old(timers).count + THREE_SECONDS) as u32,
                        flag: TimerState::Using,
                        data: 3u32,
                    },
                ).update(
                    third->0 as int,
                    TIMER {
                        timeout: (old(timers).count + ONE_SECOND) as u32,
                        flag: TimerState::Using,
                        data: 1u32,
                    },
                )
                &&& final(timers).used_timers@ == old(timers).used_timers@.insert(
                    first_after(waiting, (old(timers).count + TEN_SECONDS) as u32),
                    first->0,
                ).insert(first_after(waiting, (old(timers).count + THREE_SECONDS) as u32), second->0).insert(
                    first_after(waiting, (old(timers).count + ONE_SECOND) as u32),
                    third->0,
                )
            }
        }),
{
    let ghost o = *timers;
    let (timer_10_sec_id, timer_3_sec_id, timer_ticking_id) = match allocate_three(timers) {
        Some(ids) => ids,
        None => {
            return None;
        },
    };
    let ghost taken = *timers;
    let ghost ten = (o.count + TEN_SECONDS) as u32;
    let ghost three = (o.count + THREE_SECONDS) as u32;
    let ghost one = (o.count + ONE_SECOND) as u32;
    let ghost at_ten = first_after(o.deadlines(), ten);
    let ghost at_three = first_after(o.deadlines(), three);
    let ghost at_one = first_after(o.deadlines(), one);
    proof {
        lemma_unused_not_waiting(o, timer_10_sec_id);
        lemma_unused_not_waiting(o, timer_3_sec_id);
        lemma_unused_not_waiting(o, timer_ticking_id);
        assert(taken.deadlines() =~= o.deadlines());
        lemma_first_after(o.deadlines(), ten);
        lemma_first_after(o.deadlines(), three);
        lemma_first_after(o.deadlines(), one);
        lemma_first_after_monotone(o.deadlines(), three, ten);
        lemma_first_after_monotone(o.deadlines(), one, three);
    }
    // 0.01s x 1000 = 10s
    arm(timers, timer_10_sec_id, TEN_SECONDS, 10);
    let ghost armed_ten = *timers;
    proof {
        lemma_not_listed(armed_ten.used_timers@, o.used_timers@, at_ten, timer_10_sec_id, timer_3_sec_id);
        lemma_not_listed(armed_ten.used_timers@, o.used_timers@, at_ten, timer_10_sec_id, timer_ticking_id);
        lemma_first_after_insert(o.deadlines(), at_ten, ten, three);
        lemma_first_after_insert(o.deadlines(), at_ten, ten, one);
    }
    // 0.01s x 300 = 3s
    arm(timers, timer_3_sec_id, THREE_SECONDS, 3);
    let ghost armed_three = *timers;
    proof {
        lemma_not_listed(
            armed_three.used_timers@,
            armed_ten.used_timers@,
            at_three,
            timer_3_sec_id,
            timer_ticking_id,
        );
        lemma_first_after_insert(armed_ten.deadlines(), at_three, three, one);
    }
    // 0.01s x 100 = 1s
    arm(timers, timer_ticking_id, ONE_SECOND, 1);
    proof {
        assert(timers.timers@ =~= o.timers@.update(
            timer_10_sec_id as int,
            TIMER { timeout: ten, flag: TimerState::Using, data: 10u32 },
        ).update(
            timer_3_sec_id as int,
            TIMER { timeout: three, flag: TimerState::Using, data: 3u32 },
        ).update(timer_ticking_id as int, TIMER { timeout: one, flag: TimerState::Using, data: 1u32 }));
    }
    Some(timer_ticking_id)
}

/// An unused timer does not wait.
pub proof fn lemma_unused_not_waiting(timers: TIMERCTL<u32>, id: usize)
    requires
        timers.wf(),
        id < MAX_TIMER,
        timers.timers@[id as int].flag != TimerState::Using,
    ensures
        !timers.used_timers@.contains(id),
        timers.others(id) == timers.used_timers@,
{
    if timers.used_timers@.contains(id) {
        let k = timers.used_timers@.index_of(id);
        assert(timers.used_timers@[k] == id);
    }
}

/// A timer that was not listed is not listed after another one came in.
proof fn lemma_not_listed(grown: Seq<usize>, list: Seq<usize>, at: int, id: usize, other: usize)
    requires
        0 <= at <= list.len(),
        grown == list.insert(at, id),
        !list.contains(other),
        other != id,
    ensures
        !grown.contains(other),
{
    if grown.contains(other) {
        let k = grown.index_of(other);
        assert(grown[k] == other);
        if k < at {
            assert(list[k] == other);
        } else {
            assert(list[k - 1] == other);
        }
    }
}

/// Arms the ticking timer `id` again after it fired with the payload
/// `fired`: its next signal, a second from now, is 1 after a 0 and 0 after
/// anything else.
pub fn rearm_ticking(timers: &mut TIMERCTL<u32>, id: usize, fired: u32)
    requires
        old(timers).wf(),
        id < MAX_TIMER,
        old(timers).count + ONE_SECOND <= u32::MAX,
    ensures
        final(timers).wf(),
        final(timers).count == old(timers).count,
        final(timers).timers@ == old(timers).timers@.update(
            id as int,
            TIMER {
                timeout: (old(timers).count + ONE_SECOND) as u32,
                flag: TimerState::Using,
                data: if fired == 0 {
                    1u32
                } else {
                    0u32
                },
            },
        ),
        final(timers).used_timers@ == old(timers).others(id).insert(
            first_after(old(timers).other_deadlines(id), (old(timers).count + ONE_SECOND) as u32),
            id,
        ),
{
    if fired == 0 {
        arm(timers, id, ONE_SECOND, 1);
    } else {
        arm(timers, id, ONE_SECOND, 0);
    }
}

} // verus!
