use haribote::event::{pop_event, push_event, Event, EVENT_LIMIT};
use haribote::fifo::FIFO;
use haribote::interrupts::{
    new_keyboard, on_decoded_key, on_key, on_key_press, on_mouse_byte, on_scancode, on_tick, InterruptIndex,
    KeyPress,
    PIC_1_OFFSET, PIC_2_OFFSET,
};
use haribote::timer::TIMERCTL;

#[test]
fn codes_of_the_three_kinds() {
    assert_eq!(Event::Signal(0).code(), 0);
    assert_eq!(Event::Signal(10).code(), 10);
    assert_eq!(Event::Signal(255).code(), 255);
    assert_eq!(Event::Keyboard(0).code(), 256);
    assert_eq!(Event::Keyboard(b'a').code(), 353);
    assert_eq!(Event::Keyboard(255).code(), 511);
    assert_eq!(Event::Mouse(0).code(), 512);
    assert_eq!(Event::Mouse(0x28).code(), 552);
    assert_eq!(Event::Mouse(255).code(), 767);
    assert_eq!(EVENT_LIMIT, 768);
}

#[test]
fn decode_takes_the_offset_off() {
    assert_eq!(Event::decode(0), Some(Event::Signal(0)));
    assert_eq!(Event::decode(255), Some(Event::Signal(255)));
    assert_eq!(Event::decode(256), Some(Event::Keyboard(0)));
    assert_eq!(Event::decode(353), Some(Event::Keyboard(97)));
    assert_eq!(Event::decode(511), Some(Event::Keyboard(255)));
    assert_eq!(Event::decode(512), Some(Event::Mouse(0)));
    assert_eq!(Event::decode(767), Some(Event::Mouse(255)));
    assert_eq!(Event::decode(768), None);
    assert_eq!(Event::decode(u32::MAX), None);
}

#[test]
fn every_code_round_trips() {
    for code in 0..768u32 {
        assert_eq!(Event::decode(code).unwrap().code(), code);
    }
    for byte in 0..=255u8 {
        assert_eq!(Event::decode(Event::Signal(byte).code()), Some(Event::Signal(byte)));
        assert_eq!(Event::decode(Event::Keyboard(byte).code()), Some(Event::Keyboard(byte)));
        assert_eq!(Event::decode(Event::Mouse(byte).code()), Some(Event::Mouse(byte)));
    }
}

#[test]
fn events_go_through_the_queue_in_order() {
    let mut q: FIFO<u32> = FIFO::new(3, 0);
    assert_eq!(pop_event(&mut q), None);
    assert_eq!(push_event(&mut q, Event::Keyboard(b'x')), Ok(()));
    assert_eq!(on_mouse_byte(&mut q, 9), Ok(()));
    assert_eq!(on_key(&mut q, 'y'), Ok(()));
    assert_eq!(on_key(&mut q, 'z'), Err(()));
    assert_eq!(on_mouse_byte(&mut q, 1), Err(()));
    assert_eq!(pop_event(&mut q), Some(256 + 120));
    assert_eq!(pop_event(&mut q), Some(512 + 9));
    assert_eq!(pop_event(&mut q), Some(256 + 121));
    assert_eq!(pop_event(&mut q), None);
}

#[test]
fn pop_event_hands_out_unknown_codes() {
    let mut q: FIFO<u32> = FIFO::new(2, 0);
    assert_eq!(q.push(5000), Ok(()));
    assert_eq!(pop_event(&mut q), Some(5000));
}

#[test]
fn on_key_takes_latin_1() {
    let mut q: FIFO<u32> = FIFO::new(4, 0);
    assert_eq!(on_key(&mut q, '\u{0}'), Ok(()));
    assert_eq!(on_key(&mut q, '\u{ff}'), Ok(()));
    assert_eq!(on_key(&mut q, '\n'), Ok(()));
    assert_eq!(q.pop(), Ok(256));
    assert_eq!(q.pop(), Ok(511));
    assert_eq!(q.pop(), Ok(266));
}

#[test]
fn key_presses_without_character_become_question_marks() {
    let mut q: FIFO<u32> = FIFO::new(4, 0);
    assert_eq!(on_key_press(&mut q, KeyPress::Unicode('a')), Ok(()));
    assert_eq!(on_key_press(&mut q, KeyPress::RawKey), Ok(()));
    assert_eq!(on_key_press(&mut q, KeyPress::Unicode('\u{3042}')), Ok(()));
    assert_eq!(on_key_press(&mut q, KeyPress::Unicode('\u{ff}')), Ok(()));
    assert_eq!(on_key_press(&mut q, KeyPress::Unicode('b')), Err(()));
    assert_eq!(q.pop(), Ok(256 + 97));
    assert_eq!(q.pop(), Ok(256 + 63));
    assert_eq!(q.pop(), Ok(256 + 63));
    assert_eq!(q.pop(), Ok(511));
}

#[test]
fn decoded_keys_are_handed_on() {
    let mut q: FIFO<u32> = FIFO::new(2, 0);
    assert_eq!(on_decoded_key(&mut q, None), Ok(()));
    assert_eq!(q.status(), 0);
    assert_eq!(on_decoded_key(&mut q, Some(KeyPress::Unicode('a'))), Ok(()));
    assert_eq!(on_decoded_key(&mut q, Some(KeyPress::RawKey)), Ok(()));
    // the queue is full: a key press is refused, no key press is no failure
    assert_eq!(on_decoded_key(&mut q, Some(KeyPress::Unicode('b'))), Err(()));
    assert_eq!(on_decoded_key(&mut q, None), Ok(()));
    assert_eq!(q.pop(), Ok(256 + 97));
    assert_eq!(q.pop(), Ok(256 + 63));
    assert_eq!(q.pop(), Err(()));
}

#[test]
fn equal_decoders_decode_alike() {
    let scancodes = [0x2a, 0x1e, 0xaa, 0x1e, 0xe0, 0x48, 0x3a, 0x10, 0x3a, 0x10, 0x9e, 0x39];
    let mut first = new_keyboard();
    let mut second = new_keyboard();
    let mut q1: FIFO<u32> = FIFO::new(16, 0);
    let mut q2: FIFO<u32> = FIFO::new(16, 0);
    for &scancode in scancodes.iter() {
        assert_eq!(on_scancode(&mut first, &mut q1, scancode), Ok(()));
        assert_eq!(on_scancode(&mut second, &mut q2, scancode), Ok(()));
        assert_eq!(q1.status(), q2.status());
    }
    // shift and 'a', 'a', an arrow, 'q' under caps lock, 'q', a blank
    let expect = ['A', 'a', '?', 'Q', 'q', ' '];
    for &character in expect.iter() {
        assert_eq!(q1.pop(), Ok(256 + character as u32));
        assert_eq!(q2.pop(), Ok(256 + character as u32));
    }
    assert_eq!(q1.pop(), Err(()));
}

#[test]
fn a_new_decoder_leaves_letters_under_control() {
    let mut keyboard = new_keyboard();
    let mut q: FIFO<u32> = FIFO::new(4, 0);
    // left control down, 'c' down
    assert_eq!(on_scancode(&mut keyboard, &mut q, 0x1d), Ok(()));
    assert_eq!(q.status(), 0);
    assert_eq!(on_scancode(&mut keyboard, &mut q, 0x2e), Ok(()));
    assert_eq!(q.pop(), Ok(256 + 'c' as u32));
}

#[test]
fn scancodes_are_decoded_by_the_keyboard() {
    let mut keyboard = new_keyboard();
    let mut q: FIFO<u32> = FIFO::new(16, 0);
    // 'a' down, 'a' up
    assert_eq!(on_scancode(&mut keyboard, &mut q, 0x1e), Ok(()));
    assert_eq!(q.status(), 1);
    assert_eq!(on_scancode(&mut keyboard, &mut q, 0x9e), Ok(()));
    assert_eq!(q.status(), 1);
    assert_eq!(q.pop(), Ok(256 + 'a' as u32));
    // left shift down, 'a' down, left shift up, '1' down
    assert_eq!(on_scancode(&mut keyboard, &mut q, 0x2a), Ok(()));
    assert_eq!(q.status(), 0);
    assert_eq!(on_scancode(&mut keyboard, &mut q, 0x1e), Ok(()));
    assert_eq!(on_scancode(&mut keyboard, &mut q, 0xaa), Ok(()));
    assert_eq!(on_scancode(&mut keyboard, &mut q, 0x02), Ok(()));
    assert_eq!(q.pop(), Ok(256 + 'A' as u32));
    assert_eq!(q.pop(), Ok(256 + '1' as u32));
    assert_eq!(q.pop(), Err(()));
    // F1 has no character
    assert_eq!(on_scancode(&mut keyboard, &mut q, 0x3b), Ok(()));
    assert_eq!(q.pop(), Ok(256 + '?' as u32));
    // the prefix of an extended key completes nothing; the arrow that follows has no character
    assert_eq!(on_scancode(&mut keyboard, &mut q, 0xe0), Ok(()));
    assert_eq!(q.status(), 0);
    assert_eq!(on_scancode(&mut keyboard, &mut q, 0x48), Ok(()));
    assert_eq!(q.pop(), Ok(256 + '?' as u32));
    // enter is a line feed
    assert_eq!(on_scancode(&mut keyboard, &mut q, 0x1c), Ok(()));
    assert_eq!(q.pop(), Ok(256 + 10));
}

#[test]
fn a_full_queue_refuses_the_key() {
    let mut keyboard = new_keyboard();
    let mut q: FIFO<u32> = FIFO::new(1, 0);
    assert_eq!(on_scancode(&mut keyboard, &mut q, 0x1e), Ok(()));
    assert_eq!(on_scancode(&mut keyboard, &mut q, 0x30), Err(()));
    // a release completes no key press, so a full queue does not matter
    assert_eq!(on_scancode(&mut keyboard, &mut q, 0x9e), Ok(()));
    assert_eq!(q.pop(), Ok(256 + 'a' as u32));
    assert_eq!(q.pop(), Err(()));
}

#[test]
fn ticks_fire_timers_into_the_queue() {
    let mut timers: TIMERCTL<u32> = TIMERCTL::new(0);
    let mut q: FIFO<u32> = FIFO::new(4, 0);
    let id = timers.allocate().unwrap();
    timers.timers[id].data = 3;
    timers.set_time(id, 2);
    assert_eq!(on_tick(&mut timers, &mut q), Ok(()));
    assert_eq!(timers.count, 1);
    assert_eq!(q.status(), 0);
    assert_eq!(on_tick(&mut timers, &mut q), Ok(()));
    assert_eq!(timers.count, 2);
    assert_eq!(pop_event(&mut q), Some(3));
}

#[test]
fn interrupt_vectors() {
    assert_eq!(PIC_1_OFFSET, 0x20);
    assert_eq!(PIC_2_OFFSET, 0x28);
    assert_eq!(InterruptIndex::Timer.as_u8(), 0x20);
    assert_eq!(InterruptIndex::Keyboard.as_u8(), 0x21);
    assert_eq!(InterruptIndex::Mouse.as_u8(), 0x2c);
    assert_eq!(InterruptIndex::Timer.as_usize(), 32);
    assert_eq!(InterruptIndex::Keyboard.as_usize(), 33);
    assert_eq!(InterruptIndex::Mouse.as_usize(), 44);
}
