//! What the interrupt handlers hand to the kernel.
//!
//! The handlers themselves read the hardware; what they have read arrives
//! here as plain values and becomes events in the queue.

use crate::event::{push_event, Event};
use crate::fifo::FIFO;
use crate::timer::TIMERCTL;
use pc_keyboard::layouts::Us104Key;
use pc_keyboard::{DecodedKey, HandleControl, KeyEvent, Keyboard, ScancodeSet1};
use vstd::prelude::*;

verus! {

/// Vector of the first interrupt of the first controller.
pub const PIC_1_OFFSET: u8 = 0x20;

/// Vector of the first interrupt of the second controller.
pub const PIC_2_OFFSET: u8 = PIC_1_OFFSET + 0x08;

/// The hardware interrupts that the kernel handles.
#[derive(Debug, Clone, Copy)]
pub enum InterruptIndex {
    Timer,
    Keyboard,
    Mouse,
}

impl InterruptIndex {
    /// The interrupt's vector.
    pub open spec fn vector(self) -> u8 {
        match self {
            InterruptIndex::Timer => PIC_1_OFFSET,
            InterruptIndex::Keyboard => (PIC_1_OFFSET + 0x01) as u8,
            InterruptIndex::Mouse => (PIC_2_OFFSET + 0x04) as u8,
        }
    }

    /// The interrupt's vector.
    pub fn as_u8(self) -> (vector: u8)
        ensures
            vector == self.vector(),
    {
        match self {
            InterruptIndex::Timer => PIC_1_OFFSET,
            InterruptIndex::Keyboard => PIC_1_OFFSET + 0x01,
            InterruptIndex::Mouse => PIC_2_OFFSET + 0x04,
        }
    }

    /// The interrupt's vector, as an index.
    pub fn as_usize(self) -> (vector: usize)
        ensures
            vector == self.vector(),
    {
        self.as_u8() as usize
    }
}

/// One tick of the hardware timer: the tick count goes up by one and the
/// timers that are due queue their payloads.
pub fn on_tick(timers: &mut TIMERCTL<u32>, queue: &mut FIFO<u32>) -> (res: Result<(), ()>)
    requires
        old(timers).wf(),
        old(queue).wf(),
        old(timers).count < u32::MAX,
    ensures
        final(timers).wf(),
        final(queue).wf(),
        final(queue).capacity() == old(queue).capacity(),
        final(timers).count == old(timers).count + 1,
        ({
            let ticked = TIMERCTL { count: (old(timers).count + 1) as u32, ..*old(timers) };
            let free = old(queue).capacity() - old(queue)@.len();
            let fired = if ticked.due() <= free {
                ticked.due()
            } else {
                free
            };
            &&& res.is_ok() <==> ticked.due() <= free
            &&& final(timers).used_timers@ == old(timers).used_timers@.subrange(
                fired,
                old(timers).used_timers@.len() as int,
            )
            &&& final(queue)@ == old(queue)@ + old(timers).payloads().subrange(0, fired)
        }),
{
    timers.advance_tick(queue)
}

/// A key was decoded to `character`: the character is queued with the
/// keyboard's offset added. The character must lie below U+0100.
pub fn on_key(queue: &mut FIFO<u32>, character: char) -> (res: Result<(), ()>)
    requires
        old(queue).wf(),
        (character as u32) < 256,
    ensures
        final(queue).wf(),
        final(queue).capacity() == old(queue).capacity(),
        res.is_ok() <==> old(queue)@.len() < old(queue).capacity(),
        final(queue)@ == crate::fifo::spec_push(
            old(queue)@,
            old(queue).capacity(),
            Event::Keyboard(character as u8).spec_code(),
        ),
{
    push_event(queue, Event::Keyboard(character as u8))
}

/// The mouse sent `byte`: the byte is queued with the mouse's offset added.
pub fn on_mouse_byte(queue: &mut FIFO<u32>, byte: u8) -> (res: Result<(), ()>)
    requires
        old(queue).wf(),
    ensures
        final(queue).wf(),
        final(queue).capacity() == old(queue).capacity(),
        res.is_ok() <==> old(queue)@.len() < old(queue).capacity(),
        final(queue)@ == crate::fifo::spec_push(
            old(queue)@,
            old(queue).capacity(),
            Event::Mouse(byte).spec_code(),
        ),
{
    push_event(queue, Event::Mouse(byte))
}

/// The decoder of scancodes: a `Keyboard` of the crate `pc_keyboard` for
/// the US layout with 104 keys and scancode set 1. Its state is hidden from
/// the proofs.
#[verifier::external_body]
pub struct KeyboardDecoder {
    keyboard: Keyboard<Us104Key, ScancodeSet1>,
}

/// A key with its state, up or down, from the crate `pc_keyboard`.
#[verifier::external_type_specification]
#[verifier::external_body]
pub struct ExKeyEvent(KeyEvent);

/// The errors of the decoder, from the crate `pc_keyboard`.
#[verifier::external_type_specification]
#[verifier::external_body]
pub struct ExKeyboardError(pc_keyboard::Error);

/// What a key press was decoded to.
#[derive(Debug, Clone, Copy, PartialEq, Eq, Structural)]
pub enum KeyPress {
    /// A key that stands for a character.
    Unicode(char),
    /// A key that stands for no character.
    RawKey,
}

/// What a decoder does with a letter while a control key is held.
#[derive(Debug, Clone, Copy, PartialEq, Eq, Structural)]
pub enum ControlHandling {
    /// The letters A to Z become the characters U+0001 to U+001A.
    MapLettersToUnicode,
    /// The letters stay letters.
    Ignore,
}

/// The decoder that `Keyboard::new` of `pc_keyboard` makes for the US
/// layout, scancode set 1 and the given handling of the control key.
pub uninterp spec fn keyboard_made(handling: ControlHandling) -> KeyboardDecoder;

/// What `Keyboard::add_byte` of `pc_keyboard` does with a byte: the decoder
/// after the call, and what the call returns.
pub uninterp spec fn byte_added(decoder: KeyboardDecoder, byte: u8) -> (
    KeyboardDecoder,
    Result<Option<KeyEvent>, pc_keyboard::Error>,
);

/// What `Keyboard::process_keyevent` of `pc_keyboard` does with a key event:
/// the decoder after the call, and the key press that the call returns, if
/// it returns one.
pub uninterp spec fn event_processed(decoder: KeyboardDecoder, event: KeyEvent) -> (
    KeyboardDecoder,
    Option<KeyPress>,
);

/// Calls `Keyboard::new` of `pc_keyboard` with the US layout, scancode set 1
/// and the given handling of the control key. The call reads nothing but
/// its arguments, so its result has a name; nothing more is claimed of it.
#[verifier::external_body]
fn keyboard_new(handling: ControlHandling) -> (decoder: KeyboardDecoder)
    ensures
        decoder == keyboard_made(handling),
{
    let handle_ctrl = match handling {
        ControlHandling::MapLettersToUnicode => HandleControl::MapLettersToUnicode,
        ControlHandling::Ignore => HandleControl::Ignore,
    };
    KeyboardDecoder { keyboard: Keyboard::new(Us104Key, ScancodeSet1, handle_ctrl) }
}

/// A decoder that has seen no scancode yet and leaves letters as they are
/// while a control key is held.
pub fn new_keyboard() -> (decoder: KeyboardDecoder)
    ensures
        decoder == keyboard_made(ControlHandling::Ignore),
{
    keyboard_new(ControlHandling::Ignore)
}

/// Calls `Keyboard::add_byte` of `pc_keyboard`: one byte from the keyboard
/// goes into the decoder, and a key event comes out when the byte completes
/// one. What comes out, and what becomes of the decoder, depends on the
/// decoder and the byte and on nothing else, so it has a name; nothing more
/// is claimed of it. A decoder comes from `keyboard_new` only and is changed
/// by this call and the next only, so that it is never in a state that
/// scancode set 1 does not know.
#[verifier::external_body]
fn keyboard_add_byte(decoder: &mut KeyboardDecoder, byte: u8) -> (added: Result<
    Option<KeyEvent>,
    pc_keyboard::Error,
>)
    ensures
        *final(decoder) == byte_added(*old(decoder), byte).0,
        added == byte_added(*old(decoder), byte).1,
{
    decoder.keyboard.add_byte(byte)
}

/// Calls `Keyboard::process_keyevent` of `pc_keyboard`: a key event goes
/// into the decoder, and a decoded key comes out unless the event is a
/// release or the press of a modifier. What comes out, and what becomes of
/// the decoder, depends on the decoder and the event and on nothing else,
/// so it has a name; nothing more is claimed of it.
#[verifier::external_body]
fn keyboard_process_keyevent(decoder: &mut KeyboardDecoder, event: KeyEvent) -> (key: Option<KeyPress>)
    ensures
        *final(decoder) == event_processed(*old(decoder), event).0,
        key == event_processed(*old(decoder), event).1,
{
    match decoder.keyboard.process_keyevent(event) {
        Some(DecodedKey::Unicode(character)) => Some(KeyPress::Unicode(character)),
        Some(DecodedKey::RawKey(_)) => Some(KeyPress::RawKey),
        None => None,
    }
}

/// The character that is queued for a key press: the key's character if it
/// has one below U+0100, a question mark if not.
pub open spec fn key_character(key: KeyPress) -> char {
    match key {
        KeyPress::Unicode(character) => if (character as u32) < 256 {
            character
        } else {
            '?'
        },
        KeyPress::RawKey => '?',
    }
}

/// Queues the character of a key press. Fails, with the queue untouched,
/// when the queue is full.
pub fn on_key_press(queue: &mut FIFO<u32>, key: KeyPress) -> (res: Result<(), ()>)
    requires
        old(queue).wf(),
    ensures
        final(queue).wf(),
        final(queue).capacity() == old(queue).capacity(),
        res.is_ok() <==> old(queue)@.len() < old(queue).capacity(),
        final(queue)@ == crate::fifo::spec_push(
            old(queue)@,
            old(queue).capacity(),
            Event::Keyboard(key_character(key) as u8).spec_code(),
        ),
{
    let character = match key {
        KeyPress::Unicode(character) => if (character as u32) < 256 {
            character
        } else {
            '?'
        },
        KeyPress::RawKey => '?',
    };
    on_key(queue, character)
}

/// The queue after what a scancode was decoded to is handed on: with the
/// event of the key press behind what was queued, if there is a key press
/// and the queue has room, and as it was if not.
pub open spec fn key_queued(queued: Seq<u32>, capacity: nat, decoded: Option<KeyPress>) -> Seq<u32> {
    match decoded {
        Some(key) => crate::fifo::spec_push(
            queued,
            capacity,
            Event::Keyboard(key_character(key) as u8).spec_code(),
        ),
        None => queued,
    }
}

/// Hands on what a scancode was decoded to: a key press is queued, and
/// nothing happens where the scancode completed none. Fails, with the queue
/// untouched, when there is a key press and the queue is full.
pub fn on_decoded_key(queue: &mut FIFO<u32>, decoded: Option<KeyPress>) -> (res: Result<(), ()>)
    requires
        old(queue).wf(),
    ensures
        final(queue).wf(),
        final(queue).capacity() == old(queue).capacity(),
        res.is_ok() <==> decoded is None || old(queue)@.len() < old(queue).capacity(),
        final(queue)@ == key_queued(old(queue)@, old(queue).capacity(), decoded),
{
    match decoded {
        Some(key) => on_key_press(queue, key),
        None => Ok(()),
    }
}

/// What a decoder makes of a scancode: the decoder afterwards, and the key
/// press that the scancode completes, if it completes one. The byte goes
/// into the decoder; if a key event comes out, the event goes into the
/// decoder as well, and what comes out of that is the key press.
pub open spec fn decoded(decoder: KeyboardDecoder, scancode: u8) -> (KeyboardDecoder, Option<KeyPress>) {
    let added = byte_added(decoder, scancode);
    match added.1 {
        Ok(Some(event)) => event_processed(added.0, event),
        _ => (added.0, None),
    }
}

/// What the keyboard interrupt does with the scancode it has read: the
/// scancode goes through the decoder, and if it completes a key press, the
/// character of the key press is queued.
///
/// Which key press a scancode completes is the decoder's matter: `decoded`
/// names it. The result is an error only if a key press was to be queued
/// and the queue was full; the queue is then untouched, and the decoder has
/// taken the scancode all the same.
pub fn on_scancode(decoder: &mut KeyboardDecoder, queue: &mut FIFO<u32>, scancode: u8) -> (res: Result<
    (),
    (),
>)
    requires
        old(queue).wf(),
    ensures
        final(queue).wf(),
        final(queue).capacity() == old(queue).capacity(),
        *final(decoder) == decoded(*old(decoder), scancode).0,
        res.is_ok() <==> decoded(*old(decoder), scancode).1 is None || old(queue)@.len() < old(
            queue,
        ).capacity(),
        final(queue)@ == key_queued(
            old(queue)@,
            old(queue).capacity(),
            decoded(*old(decoder), scancode).1,
        ),
{
    if let Ok(Some(key_event)) = keyboard_add_byte(decoder, scancode) {
        let key = keyboard_process_keyevent(decoder, key_event);
        return on_decoded_key(queue, key);
    }
    on_decoded_key(queue, None)
}

} // verus!
