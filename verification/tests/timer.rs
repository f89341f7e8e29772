use haribote::fifo::FIFO;
use haribote::timer::{TimerState, MAX_TIMER, TIMER, TIMERCTL};

fn deadlines(ctl: &TIMERCTL<u32>) -> Vec<u32> {
    ctl.used_timers.iter().map(|&id| ctl.timers[id].timeout).collect()
}

#[test]
fn new_registry_is_idle() {
    let ctl: TIMERCTL<u32> = TIMERCTL::new(0);
    assert_eq!(ctl.count, 0);
    assert_eq!(ctl.next, u32::MAX);
    assert_eq!(ctl.timers.len(), MAX_TIMER);
    assert!(ctl.used_timers.is_empty());
    assert!(ctl.timers.iter().all(|t| t.flag == TimerState::Unused && t.timeout == 0 && t.data == 0));
}

#[test]
fn allocate_hands_out_lowest_unused() {
    let mut ctl: TIMERCTL<u32> = TIMERCTL::new(0);
    assert_eq!(ctl.allocate(), Some(0));
    assert_eq!(ctl.allocate(), Some(1));
    assert_eq!(ctl.allocate(), Some(2));
    ctl.deallocate(1);
    assert_eq!(ctl.timers[1].flag, TimerState::Unused);
    assert_eq!(ctl.allocate(), Some(1));
    assert_eq!(ctl.timers[1].flag, TimerState::Using);
    assert_eq!(ctl.allocate(), Some(3));
}

#[test]
fn pool_exhaustion_returns_none() {
    let mut ctl: TIMERCTL<u32> = TIMERCTL::new(0);
    for i in 0..MAX_TIMER {
        assert_eq!(ctl.allocate(), Some(i));
    }
    assert_eq!(ctl.allocate(), None);
    assert_eq!(ctl.allocate(), None);
    ctl.deallocate(42);
    assert_eq!(ctl.allocate(), Some(42));
    assert_eq!(ctl.allocate(), None);
}

#[test]
fn active_list_is_sorted_by_deadline() {
    let mut ctl: TIMERCTL<u32> = TIMERCTL::new(0);
    let waits = [500u32, 100, 300, 100, 1000, 1, 300];
    let mut ids = Vec::new();
    for &w in waits.iter() {
        let id = ctl.allocate().unwrap();
        ctl.set_time(id, w);
        ids.push(id);
        let d = deadlines(&ctl);
        assert!(d.windows(2).all(|p| p[0] <= p[1]));
        assert_eq!(ctl.next, d[0]);
    }
    assert_eq!(deadlines(&ctl), vec![1, 100, 100, 300, 300, 500, 1000]);
    // equal deadlines keep the order in which they were armed
    assert_eq!(ctl.used_timers, vec![ids[5], ids[1], ids[3], ids[2], ids[6], ids[0], ids[4]]);
    assert_eq!(ctl.next, 1);
}

#[test]
fn set_time_adds_the_tick_count() {
    let mut ctl: TIMERCTL<u32> = TIMERCTL::new(0);
    let mut q: FIFO<u32> = FIFO::new(8, 0);
    for _ in 0..7 {
        assert_eq!(ctl.advance_tick(&mut q), Ok(()));
    }
    let id = ctl.allocate().unwrap();
    ctl.set_time(id, 10);
    assert_eq!(ctl.timers[id].timeout, 17);
    assert_eq!(ctl.timers[id].flag, TimerState::Using);
    assert_eq!(ctl.next, 17);
}

#[test]
fn arming_a_waiting_timer_again_moves_it() {
    let mut ctl: TIMERCTL<u32> = TIMERCTL::new(0);
    let a = ctl.allocate().unwrap();
    let b = ctl.allocate().unwrap();
    ctl.set_time(a, 10);
    ctl.set_time(b, 20);
    assert_eq!(ctl.used_timers, vec![a, b]);
    ctl.set_time(a, 30);
    assert_eq!(ctl.used_timers, vec![b, a]);
    assert_eq!(ctl.next, 20);
    assert_eq!(deadlines(&ctl), vec![20, 30]);
}

#[test]
fn deadline_scheduling() {
    let mut ctl: TIMERCTL<u32> = TIMERCTL::new(0);
    let mut q: FIFO<u32> = FIFO::new(32, 0);
    let id = ctl.allocate().unwrap();
    ctl.timers[id].data = 77;
    ctl.set_time(id, 100);
    for _ in 0..99 {
        assert_eq!(ctl.advance_tick(&mut q), Ok(()));
        assert_eq!(q.status(), 0);
    }
    assert_eq!(ctl.timers[id].flag, TimerState::Using);
    assert_eq!(ctl.advance_tick(&mut q), Ok(()));
    assert_eq!(ctl.count, 100);
    assert_eq!(q.status(), 1);
    assert_eq!(q.pop(), Ok(77));
    assert_eq!(q.pop(), Err(()));
    assert_eq!(ctl.timers[id].flag, TimerState::Allocated);
    assert!(ctl.used_timers.is_empty());
    assert_eq!(ctl.next, u32::MAX);
    for _ in 0..50 {
        assert_eq!(ctl.advance_tick(&mut q), Ok(()));
    }
    assert_eq!(q.status(), 0);
}

#[test]
fn timers_due_together_fire_in_list_order() {
    let mut ctl: TIMERCTL<u32> = TIMERCTL::new(0);
    let mut q: FIFO<u32> = FIFO::new(32, 0);
    let a = ctl.allocate().unwrap();
    let b = ctl.allocate().unwrap();
    let c = ctl.allocate().unwrap();
    ctl.timers[a].data = 1;
    ctl.timers[b].data = 2;
    ctl.timers[c].data = 3;
    ctl.set_time(a, 5);
    ctl.set_time(b, 3);
    ctl.set_time(c, 5);
    for _ in 0..2 {
        assert_eq!(ctl.advance_tick(&mut q), Ok(()));
    }
    assert_eq!(q.status(), 0);
    assert_eq!(ctl.advance_tick(&mut q), Ok(()));
    assert_eq!(q.pop(), Ok(2));
    assert_eq!(ctl.next, 5);
    assert_eq!(ctl.advance_tick(&mut q), Ok(()));
    assert_eq!(q.status(), 0);
    assert_eq!(ctl.advance_tick(&mut q), Ok(()));
    assert_eq!(q.pop(), Ok(1));
    assert_eq!(q.pop(), Ok(3));
    assert_eq!(q.pop(), Err(()));
    assert_eq!(ctl.timers[a].flag, TimerState::Allocated);
    assert_eq!(ctl.timers[b].flag, TimerState::Allocated);
    assert_eq!(ctl.timers[c].flag, TimerState::Allocated);
}

#[test]
fn shift_timers_without_a_tick_fires_what_is_due() {
    let mut ctl: TIMERCTL<u32> = TIMERCTL::new(9);
    let mut q: FIFO<u32> = FIFO::new(4, 0);
    let a = ctl.allocate().unwrap();
    ctl.set_time(a, 0);
    assert_eq!(ctl.next, 0);
    assert_eq!(ctl.shift_timers(&mut q), Ok(()));
    assert_eq!(q.pop(), Ok(9));
    assert_eq!(ctl.shift_timers(&mut q), Ok(()));
    assert_eq!(q.pop(), Err(()));
}

#[test]
fn full_queue_holds_due_timers_back() {
    let mut ctl: TIMERCTL<u32> = TIMERCTL::new(0);
    let mut q: FIFO<u32> = FIFO::new(2, 0);
    let mut ids = Vec::new();
    for i in 0..3u32 {
        let id = ctl.allocate().unwrap();
        ctl.timers[id].data = 10 + i;
        ctl.set_time(id, 1);
        ids.push(id);
    }
    assert_eq!(ctl.advance_tick(&mut q), Err(()));
    assert_eq!(q.status(), 2);
    assert_eq!(ctl.used_timers, vec![ids[2]]);
    assert_eq!(ctl.timers[ids[0]].flag, TimerState::Allocated);
    assert_eq!(ctl.timers[ids[1]].flag, TimerState::Allocated);
    assert_eq!(ctl.timers[ids[2]].flag, TimerState::Using);
    assert_eq!(ctl.next, 1);
    assert_eq!(q.pop(), Ok(10));
    assert_eq!(ctl.advance_tick(&mut q), Ok(()));
    assert_eq!(q.pop(), Ok(11));
    assert_eq!(q.pop(), Ok(12));
    assert!(ctl.used_timers.is_empty());
    assert_eq!(ctl.next, u32::MAX);
}

#[test]
fn fired_timer_can_be_armed_again() {
    let mut ctl: TIMERCTL<u32> = TIMERCTL::new(4);
    let mut q: FIFO<u32> = FIFO::new(8, 0);
    let id = ctl.allocate().unwrap();
    ctl.set_time(id, 2);
    assert_eq!(ctl.advance_tick(&mut q), Ok(()));
    assert_eq!(ctl.advance_tick(&mut q), Ok(()));
    assert_eq!(q.pop(), Ok(4));
    ctl.set_time(id, 2);
    assert_eq!(ctl.timers[id].timeout, 4);
    assert_eq!(ctl.advance_tick(&mut q), Ok(()));
    assert_eq!(q.pop(), Err(()));
    assert_eq!(ctl.advance_tick(&mut q), Ok(()));
    assert_eq!(q.pop(), Ok(4));
}

#[test]
fn timer_on_its_own() {
    let mut t: TIMER<u32> = TIMER::new(5);
    assert_eq!(t.timeout, 0);
    assert_eq!(t.flag, TimerState::Unused);
    assert_eq!(t.data, 5);
    let mut q: FIFO<u32> = FIFO::new(1, 0);
    assert_eq!(t.push_timeout_signal(&mut q), Ok(()));
    assert_eq!(t.push_timeout_signal(&mut q), Err(()));
    assert_eq!(q.pop(), Ok(5));
    t.flag = TimerState::Using;
    t.deallocate();
    assert_eq!(t.flag, TimerState::Unused);
}
