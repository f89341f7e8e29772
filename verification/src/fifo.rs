//! Fixed-capacity ring queue.
//!
//! One queue multiplexes every kind of event onto a single channel: interrupt
//! handlers push coded integers, the main loop pops them in arrival order.

use vstd::prelude::*;

verus! {

/// Capacity of the kernel's event queue.
pub const BUF_SIZE: usize = 2048;

/// Offset added to a decoded keyboard character to form its event code.
pub const KEYBOARD_OFFSET: u32 = 256;

/// Offset added to a raw mouse byte to form its event code.
pub const MOUSE_OFFSET: u32 = 512;

/// A ring queue over a buffer of fixed length.
///
/// `p` is the next slot to write, `q` the next slot to read, and `free` the
/// number of slots that hold no unread item.
#[derive(Debug, Clone)]
pub struct FIFO<T> {
    buf: Vec<T>,
    p: usize,
    q: usize,
    size: usize,
    free: usize,
}

/// The queue contents after a push of `data` onto `queued` in a ring of
/// `capacity` slots: a full ring keeps what it has.
pub open spec fn spec_push<T>(queued: Seq<T>, capacity: nat, data: T) -> Seq<T> {
    if queued.len() < capacity {
        queued.push(data)
    } else {
        queued
    }
}

/// The queue contents after a pop: the oldest item is gone, an empty queue
/// stays empty.
pub open spec fn spec_pop<T>(queued: Seq<T>) -> Seq<T> {
    if queued.len() > 0 {
        queued.subrange(1, queued.len() as int)
    } else {
        queued
    }
}

/// The queue contents after pushing `items` one by one, first item first.
pub open spec fn after_pushes<T>(queued: Seq<T>, capacity: nat, items: Seq<T>) -> Seq<T>
    decreases items.len(),
{
    if items.len() == 0 {
        queued
    } else {
        after_pushes(
            spec_push(queued, capacity, items[0]),
            capacity,
            items.subrange(1, items.len() as int),
        )
    }
}

/// The queue contents after `n` pops.
pub open spec fn after_pops<T>(queued: Seq<T>, n: nat) -> Seq<T>
    decreases n,
{
    if n == 0 {
        queued
    } else {
        after_pops(spec_pop(queued), (n - 1) as nat)
    }
}

/// Pushes that fit are appended in order behind what was queued.
pub proof fn lemma_pushes_append<T>(queued: Seq<T>, capacity: nat, items: Seq<T>)
    requires
        queued.len() + items.len() <= capacity,
    ensures
        after_pushes(queued, capacity, items) == queued + items,
    decreases items.len(),
{
    if items.len() == 0 {
        assert(queued + items =~= queued);
    } else {
        let rest = items.subrange(1, items.len() as int);
        lemma_pushes_append(queued.push(items[0]), capacity, rest);
        assert(queued.push(items[0]) + rest =~= queued + items);
    }
}

/// `n` pops from a queue that holds at least `n` items remove its first `n`
/// items and leave the others in place.
pub proof fn lemma_pops_drop<T>(queued: Seq<T>, n: nat)
    requires
        n <= queued.len(),
    ensures
        after_pops(queued, n) == queued.subrange(n as int, queued.len() as int),
    decreases n,
{
    if n == 0 {
        assert(queued.subrange(0, queued.len() as int) =~= queued);
    } else {
        let rest = spec_pop(queued);
        lemma_pops_drop(rest, (n - 1) as nat);
        assert(rest.subrange(n - 1, rest.len() as int) =~= queued.subrange(
            n as int,
            queued.len() as int,
        ));
    }
}

/// First in, first out. Push `items` onto an empty queue that has room for
/// them. Then the queue holds exactly `items`; after `k` pops its length is
/// the number of pushes minus the number of pops; the pop that follows
/// returns `items[k]`; and once as many items were popped as were pushed the
/// queue is empty, so that a further pop fails.
pub proof fn lemma_round_trip<T>(capacity: nat, items: Seq<T>, k: nat)
    requires
        items.len() <= capacity,
        k < items.len(),
    ensures
        after_pushes(Seq::<T>::empty(), capacity, items) == items,
        after_pops(items, k).len() == items.len() - k,
        after_pops(items, k)[0] == items[k as int],
        after_pops(items, items.len()).len() == 0,
        spec_pop(after_pops(items, items.len())) == after_pops(items, items.len()),
{
    lemma_pushes_append(Seq::<T>::empty(), capacity, items);
    assert(Seq::<T>::empty() + items =~= items);
    lemma_pops_drop(items, k);
    lemma_pops_drop(items, items.len());
}

/// A push onto a full queue changes nothing, and neither does a pop from an
/// empty one.
pub proof fn lemma_full_and_empty<T>(queued: Seq<T>, capacity: nat, data: T)
    ensures
        queued.len() >= capacity ==> spec_push(queued, capacity, data) == queued,
        spec_pop(Seq::<T>::empty()) == Seq::<T>::empty(),
{
}

impl<T> FIFO<T> {
    /// The number of slots of the queue.
    pub closed spec fn capacity(self) -> nat {
        self.size as nat
    }

    /// The unread items, oldest first.
    pub closed spec fn view(self) -> Seq<T> {
        Seq::new(
            (self.size - self.free) as nat,
            |i: int| self.buf@[(self.q + i) % (self.size as int)],
        )
    }

    /// The invariant of the ring: the indices stay inside the buffer and the
    /// write index runs ahead of the read index by the number of unread items.
    pub closed spec fn wf(self) -> bool {
        &&& self.buf@.len() == self.size
        &&& self.free <= self.size
        &&& self.size == 0 ==> self.p == 0 && self.q == 0
        &&& self.size > 0 ==> self.p < self.size && self.q < self.size
        &&& self.size > 0 ==> self.p as int == (self.q + (self.size - self.free)) % (self.size as int)
    }

    /// A well-formed queue never holds more items than it has slots.
    pub proof fn lemma_len_bounded(self)
        requires
            self.wf(),
        ensures
            self@.len() <= self.capacity(),
    {
    }
}

impl<T: Clone> FIFO<T> {
    /// Creates an empty queue with `buf_size` slots, each holding `default_value`.
    pub fn new(buf_size: usize, default_value: T) -> (fifo: Self)
        ensures
            fifo.wf(),
            fifo.capacity() == buf_size,
            fifo@ == Seq::<T>::empty(),
    {
        let fifo = Self { buf: vec![default_value; buf_size], p: 0, q: 0, free: buf_size, size: buf_size };
        proof {
            if buf_size > 0 {
                vstd::arithmetic::div_mod::lemma_small_mod(0, buf_size as nat);
            }
            assert(fifo@ =~= Seq::<T>::empty());
        }
        fifo
    }

    /// Appends `data` behind the unread items, or fails and leaves the queue
    /// untouched when no slot is free.
    pub fn push(&mut self, data: T) -> (res: Result<(), ()>)
        requires
            old(self).wf(),
        ensures
            final(self).wf(),
            final(self).capacity() == old(self).capacity(),
            res.is_ok() <==> old(self)@.len() < old(self).capacity(),
            final(self)@ == spec_push(old(self)@, old(self).capacity(), data),
    {
        if self.free == 0 {
            return Err(());
        }
        let ghost before = *self;
        self.buf[self.p] = data;
        self.p += 1;
        if self.p == self.size {
            self.p = 0;
        }
        self.free -= 1;
        proof {
            let n = self.size as int;
            let used = (before.size - before.free) as int;
            lemma_ring_step(before.q as int, used, n);
            assert forall|i: int| 0 <= i < used + 1 implies (#[trigger] self@[i]) == before@.push(
                data,
            )[i] by {
                if i < used {
                    lemma_ring_distinct(before.q as int, i, used, n);
                }
            }
            assert(self@ =~= before@.push(data));
        }
        Ok(())
    }

    /// Removes the oldest unread item and returns a clone of it, or fails and
    /// leaves the queue untouched when nothing is queued.
    pub fn pop(&mut self) -> (res: Result<T, ()>)
        requires
            old(self).wf(),
        ensures
            final(self).wf(),
            final(self).capacity() == old(self).capacity(),
            res.is_ok() <==> old(self)@.len() > 0,
            res matches Ok(data) ==> cloned(old(self)@[0], data),
            final(self)@ == spec_pop(old(self)@),
    {
        if self.free == self.size {
            return Err(());
        }
        let ghost before = *self;
        let data = self.buf[self.q].clone();
        self.q += 1;
        if self.q == self.size {
            self.q = 0;
        }
        self.free += 1;
        proof {
            let n = self.size as int;
            let used = (before.size - before.free) as int;
            lemma_ring_shift(before.q as int, used, n);
            assert forall|i: int| 0 <= i < used - 1 implies (#[trigger] self@[i]) == before@.subrange(
                1,
                used,
            )[i] by {
                lemma_ring_next(before.q as int, i, n);
            }
            assert(self@ =~= before@.subrange(1, used));
            assert(before@[0] == before.buf@[before.q as int]) by {
                vstd::arithmetic::div_mod::lemma_small_mod(before.q as nat, n as nat);
            }
        }
        return Ok(data);
    }

    /// The number of queued items that have not been read yet.
    pub fn status(&self) -> (used: usize)
        requires
            self.wf(),
        ensures
            used == self@.len(),
    {
        return self.size - self.free;
    }
}

/// Advancing the write index by one slot keeps it `used + 1` slots ahead of
/// the read index.
proof fn lemma_ring_step(q: int, used: int, n: int)
    requires
        0 <= q < n,
        0 <= used < n,
    ensures
        (q + used + 1) % n == (if (q + used) % n + 1 == n {
            0
        } else {
            (q + used) % n + 1
        }),
{
    vstd::arithmetic::div_mod::lemma_fundamental_div_mod(q + used, n);
    vstd::arithmetic::div_mod::lemma_fundamental_div_mod(q + used + 1, n);
    lemma_mod_unique(q + used + 1, n);
    lemma_mod_unique(q + used, n);
}

/// For non-negative `a` below `2 * n`, the remainder is `a` or `a - n`.
proof fn lemma_mod_unique(a: int, n: int)
    requires
        0 <= a < 2 * n,
        n > 0,
    ensures
        a % n == (if a < n {
            a
        } else {
            a - n
        }),
{
    if a < n {
        vstd::arithmetic::div_mod::lemma_small_mod(a as nat, n as nat);
    } else {
        vstd::arithmetic::div_mod::lemma_small_mod((a - n) as nat, n as nat);
        vstd::arithmetic::div_mod::lemma_mod_sub_multiples_vanish(a, n);
    }
}

/// The slot of the `i`-th unread item differs from the slot that the next
/// push writes.
proof fn lemma_ring_distinct(q: int, i: int, used: int, n: int)
    requires
        0 <= q < n,
        0 <= i < used < n,
    ensures
        (q + i) % n != (q + used) % n,
{
    lemma_mod_unique(q + i, n);
    lemma_mod_unique(q + used, n);
}

/// After the read index moves on by one slot, the write index is `used - 1`
/// slots ahead of it.
proof fn lemma_ring_shift(q: int, used: int, n: int)
    requires
        0 <= q < n,
        0 < used <= n,
    ensures
        (q + used) % n == ((if q + 1 == n {
            0
        } else {
            q + 1
        }) + used - 1) % n,
{
    if q + 1 == n {
        lemma_mod_unique(q + used, n);
        lemma_mod_unique(used - 1, n);
    }
}

/// The `i + 1`-th slot counted from `q` is the `i`-th slot counted from the
/// successor of `q`.
proof fn lemma_ring_next(q: int, i: int, n: int)
    requires
        0 <= q < n,
        0 <= i < n - 1,
    ensures
        (q + i + 1) % n == ((if q + 1 == n {
            0
        } else {
            q + 1
        }) + i) % n,
{
    if q + 1 == n {
        lemma_mod_unique(q + i + 1, n);
        lemma_mod_unique(i, n);
    }
}

} // verus!
