//! Where the host writes a wake into a guest's mailbox ring.
//!
//! The ring's head and tail are free-running `u32` counters; the entries
//! not yet read are those from the head up to the tail. A full ring is not
//! written (unread entries must not be overwritten); otherwise the wake goes
//! into the tail's slot and the tail moves on by one.
use vstd::prelude::*;

verus! {

/// The span of a `u32` counter.
pub open spec fn counter_span() -> int {
    0x1_0000_0000
}

/// How many entries lie between `head` and `tail`, counting round the
/// `u32` range.
pub open spec fn ring_pending(head: u32, tail: u32) -> int {
    if tail >= head {
        tail - head
    } else {
        tail + counter_span() - head
    }
}

/// The counter after `c`, round the `u32` range.
pub open spec fn next_counter(c: u32) -> u32 {
    if c == u32::MAX {
        0
    } else {
        (c + 1) as u32
    }
}

/// What enqueueing a wake does.
#[derive(Clone, Copy, Debug, PartialEq, Eq, Structural)]
pub enum MailboxWrite {
    /// The ring is full: nothing is written.
    Full,
    /// Write the task id at this byte offset, then store the new tail.
    Slot {
        /// Byte offset of the slot within the mailbox.
        offset: usize,
        /// The tail after the write.
        next_tail: u32,
    },
    /// The slot's offset does not fit in an address.
    OffsetOverflow,
}

/// Where a wake goes in a ring of `capacity` slots of `slot_size` bytes
/// that starts `ring_offset` bytes into the mailbox.
pub fn mailbox_write(
    head: u32,
    tail: u32,
    capacity: usize,
    slot_size: usize,
    ring_offset: usize,
) -> (r: MailboxWrite)
    requires
        capacity > 0,
        (capacity - 1) * slot_size <= usize::MAX,
    ensures
        ring_pending(head, tail) >= capacity ==> r == MailboxWrite::Full,
        ring_pending(head, tail) < capacity ==> r == if ring_offset + (tail as int % capacity as int) * slot_size
            > usize::MAX {
            MailboxWrite::OffsetOverflow
        } else {
            MailboxWrite::Slot {
                offset: (ring_offset + (tail as int % capacity as int) * slot_size) as usize,
                next_tail: next_counter(tail),
            }
        },
{
    let pending = tail.wrapping_sub(head);
    if pending as usize >= capacity {
        return MailboxWrite::Full;
    }
    let index = tail as usize % capacity;
    assert(index * slot_size <= (capacity - 1) * slot_size) by (nonlinear_arith)
        requires
            index <= capacity - 1,
    ;
    let slot = index * slot_size;
    match ring_offset.checked_add(slot) {
        Some(offset) => MailboxWrite::Slot { offset, next_tail: tail.wrapping_add(1) },
        None => MailboxWrite::OffsetOverflow,
    }
}

/// A write keeps the ring within its capacity (less than the `u32` range):
/// the entries pending after it are one more than before, at most
/// `capacity`.
pub proof fn lemma_write_keeps_capacity(head: u32, tail: u32, capacity: int)
    requires
        capacity < counter_span(),
        ring_pending(head, tail) < capacity,
    ensures
        ring_pending(head, next_counter(tail)) == ring_pending(head, tail) + 1,
        ring_pending(head, next_counter(tail)) <= capacity,
{
}

/// When the capacity divides the `u32` range, a write never lands on the
/// slot of an entry not yet read: the `j`-th unread entry (counter
/// `head + j`, round the range) sits in another slot than the tail's.
pub proof fn lemma_write_spares_unread(head: u32, tail: u32, capacity: int, j: int)
    requires
        capacity > 0,
        counter_span() % capacity == 0,
        ring_pending(head, tail) < capacity,
        0 <= j < ring_pending(head, tail),
    ensures
        ((head + j) % counter_span()) % capacity != (tail as int) % capacity,
{
    let w = counter_span();
    let k = w / capacity;
    let p = ring_pending(head, tail);
    assert(w == capacity * k) by {
        vstd::arithmetic::div_mod::lemma_fundamental_div_mod(w, capacity);
    }
    assert(k > 0) by (nonlinear_arith)
        requires
            w == capacity * k,
            w > 0,
            capacity > 0,
    ;
    // The unread entry's slot is that of `head + j` itself.
    assert(((head + j) % w) % capacity == (head + j) % capacity) by {
        vstd::arithmetic::div_mod::lemma_mod_mod(head + j, capacity, k);
    }
    // The tail's slot is that of `head + p`.
    assert((tail as int) % capacity == (head + p) % capacity) by {
        if tail < head {
            assert(head + p == capacity * k + tail);
            vstd::arithmetic::div_mod::lemma_mod_multiples_vanish(k, tail as int, capacity);
        }
    }
    if (head + j) % capacity == (head + p) % capacity {
        vstd::arithmetic::div_mod::lemma_mod_equivalence(head + p, head + j, capacity);
        assert((p - j) % capacity == 0);
        vstd::arithmetic::div_mod::lemma_small_mod((p - j) as nat, capacity as nat);
        assert(false);
    }
}

} // verus!
