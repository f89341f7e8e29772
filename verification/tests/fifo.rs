use haribote::fifo::{FIFO, BUF_SIZE, KEYBOARD_OFFSET, MOUSE_OFFSET};

#[test]
fn push_then_pop_keeps_order() {
    let mut q: FIFO<u32> = FIFO::new(4, 0);
    assert_eq!(q.status(), 0);
    assert_eq!(q.push(10), Ok(()));
    assert_eq!(q.push(20), Ok(()));
    assert_eq!(q.push(30), Ok(()));
    assert_eq!(q.status(), 3);
    assert_eq!(q.pop(), Ok(10));
    assert_eq!(q.pop(), Ok(20));
    assert_eq!(q.status(), 1);
    assert_eq!(q.pop(), Ok(30));
    assert_eq!(q.pop(), Err(()));
}

#[test]
fn push_to_full_queue_fails_and_keeps_contents() {
    let mut q: FIFO<u32> = FIFO::new(3, 0);
    assert_eq!(q.push(1), Ok(()));
    assert_eq!(q.push(2), Ok(()));
    assert_eq!(q.push(3), Ok(()));
    assert_eq!(q.push(4), Err(()));
    assert_eq!(q.status(), 3);
    assert_eq!(q.pop(), Ok(1));
    assert_eq!(q.pop(), Ok(2));
    assert_eq!(q.pop(), Ok(3));
    assert_eq!(q.pop(), Err(()));
}

#[test]
fn pop_from_empty_queue_fails() {
    let mut q: FIFO<u32> = FIFO::new(2, 7);
    assert_eq!(q.pop(), Err(()));
    assert_eq!(q.status(), 0);
    assert_eq!(q.push(5), Ok(()));
    assert_eq!(q.pop(), Ok(5));
    assert_eq!(q.pop(), Err(()));
}

#[test]
fn indices_wrap_around_the_buffer() {
    let mut q: FIFO<u32> = FIFO::new(3, 0);
    for round in 0..10u32 {
        assert_eq!(q.push(round * 2), Ok(()));
        assert_eq!(q.push(round * 2 + 1), Ok(()));
        assert_eq!(q.status(), 2);
        assert_eq!(q.pop(), Ok(round * 2));
        assert_eq!(q.pop(), Ok(round * 2 + 1));
        assert_eq!(q.status(), 0);
    }
}

#[test]
fn status_counts_pushes_minus_pops() {
    let mut q: FIFO<u32> = FIFO::new(BUF_SIZE, 0);
    let mut pushed = 0usize;
    let mut popped = 0usize;
    for i in 0..100u32 {
        assert_eq!(q.push(i), Ok(()));
        pushed += 1;
        if i % 3 == 0 {
            assert_eq!(q.pop(), Ok(popped as u32));
            popped += 1;
        }
        assert_eq!(q.status(), pushed - popped);
    }
}

#[test]
fn queue_of_no_slots_takes_nothing() {
    let mut q: FIFO<u32> = FIFO::new(0, 0);
    assert_eq!(q.push(1), Err(()));
    assert_eq!(q.pop(), Err(()));
    assert_eq!(q.status(), 0);
}

#[test]
fn queue_clones_what_it_hands_out() {
    let mut q: FIFO<String> = FIFO::new(2, String::new());
    assert_eq!(q.push("first".to_string()), Ok(()));
    assert_eq!(q.push("second".to_string()), Ok(()));
    assert_eq!(q.pop(), Ok("first".to_string()));
    assert_eq!(q.pop(), Ok("second".to_string()));
}

#[test]
fn offsets_of_the_event_kinds() {
    assert_eq!(KEYBOARD_OFFSET, 256);
    assert_eq!(MOUSE_OFFSET, 512);
    assert_eq!(BUF_SIZE, 2048);
}
