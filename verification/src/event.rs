//! Events and their codes.
//!
//! Every event travels through the queue as one integer. The ranges of the
//! codes tell the kinds apart: signal codes of timers below 256, keyboard
//! characters from 256, raw mouse bytes from 512.

use crate::fifo::{FIFO, KEYBOARD_OFFSET, MOUSE_OFFSET};
use vstd::prelude::*;

verus! {

/// The first code that stands for no event.
pub const EVENT_LIMIT: u32 = 768;

/// What a code of the queue stands for.
#[derive(Debug, Clone, Copy, PartialEq, Eq, Structural)]
pub enum Event {
    /// A signal of a timer: the timer's payload.
    Signal(u8),
    /// A decoded keyboard character, below U+0100.
    Keyboard(u8),
    /// A raw byte of a mouse packet.
    Mouse(u8),
}

impl Event {
    /// The code of the event.
    pub open spec fn spec_code(self) -> u32 {
        match self {
            Event::Signal(signal) => signal as u32,
            Event::Keyboard(character) => (KEYBOARD_OFFSET + character) as u32,
            Event::Mouse(byte) => (MOUSE_OFFSET + byte) as u32,
        }
    }

    /// The event that `code` stands for, if it stands for one.
    pub open spec fn spec_decode(code: u32) -> Option<Event> {
        if code < KEYBOARD_OFFSET {
            Some(Event::Signal(code as u8))
        } else if code < MOUSE_OFFSET {
            Some(Event::Keyboard((code - KEYBOARD_OFFSET) as u8))
        } else if code < EVENT_LIMIT {
            Some(Event::Mouse((code - MOUSE_OFFSET) as u8))
        } else {
            None
        }
    }

    /// The code of the event: the producer adds the offset of the kind.
    #[verifier::when_used_as_spec(spec_code)]
    pub fn code(self) -> (code: u32)
        ensures
            code == self.spec_code(),
            code < EVENT_LIMIT,
    {
        match self {
            Event::Signal(signal) => signal as u32,
            Event::Keyboard(character) => KEYBOARD_OFFSET + character as u32,
            Event::Mouse(byte) => MOUSE_OFFSET + byte as u32,
        }
    }

    /// The event that `code` stands for: the consumer takes the offset of
    /// the kind off again. Codes from `EVENT_LIMIT` on stand for nothing.
    pub fn decode(code: u32) -> (event: Option<Event>)
        ensures
            event == Self::spec_decode(code),
            event is Some <==> code < EVENT_LIMIT,
    {
        if code < KEYBOARD_OFFSET {
            Some(Event::Signal(code as u8))
        } else if code < MOUSE_OFFSET {
            Some(Event::Keyboard((code - KEYBOARD_OFFSET) as u8))
        } else if code < EVENT_LIMIT {
            Some(Event::Mouse((code - MOUSE_OFFSET) as u8))
        } else {
            None
        }
    }

    /// The ranges of the kinds do not overlap: a code is decoded to the
    /// event that was encoded, and a code that stands for an event is the
    /// code of that event.
    pub proof fn lemma_code_round_trip(self, code: u32)
        ensures
            Self::spec_decode(self.spec_code()) == Some(self),
            Self::spec_decode(code) matches Some(event) ==> event.spec_code() == code,
            self is Signal <==> self.spec_code() < KEYBOARD_OFFSET,
            self is Keyboard <==> KEYBOARD_OFFSET <= self.spec_code() < MOUSE_OFFSET,
            self is Mouse <==> MOUSE_OFFSET <= self.spec_code() < EVENT_LIMIT,
    {
    }
}

/// Queues `event`. Fails, with the queue untouched, when the queue is full.
pub fn push_event(queue: &mut FIFO<u32>, event: Event) -> (res: Result<(), ()>)
    requires
        old(queue).wf(),
    ensures
        final(queue).wf(),
        final(queue).capacity() == old(queue).capacity(),
        res.is_ok() <==> old(queue)@.len() < old(queue).capacity(),
        final(queue)@ == crate::fifo::spec_push(old(queue)@, old(queue).capacity(), event.spec_code()),
{
    queue.push(event.code())
}

/// Takes the oldest code from the queue, or returns `None` when the queue
/// is empty. The code is handed out as it is, whether it stands for an
/// event or not.
pub fn pop_event(queue: &mut FIFO<u32>) -> (res: Option<u32>)
    requires
        old(queue).wf(),
    ensures
        final(queue).wf(),
        final(queue).capacity() == old(queue).capacity(),
        final(queue)@ == crate::fifo::spec_pop(old(queue)@),
        res == (if old(queue)@.len() > 0 {
            Some(old(queue)@[0])
        } else {
            None
        }),
{
    match queue.pop() {
        Ok(code) => Some(code),
        Err(_) => None,
    }
}

} // verus!
