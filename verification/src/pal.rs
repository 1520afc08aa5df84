//! The palette table: hardware colours and the slots assigned to them.
//!
//! A table is modelled by the sequence of its allocated slots, in the order
//! in which their colours were first seen, and by its capacity. Slot `i` of
//! the table holds element `i` of that sequence.

use crate::color::{quantized, GbaColor, TrueColor};
use std::collections::HashMap;
use vstd::prelude::*;

verus! {

/// What the allocated slots of every table satisfy: no colour holds two
/// slots, and there are no more slots than the capacity allows.
pub open spec fn valid_slots(slots: Seq<GbaColor>, capacity: nat) -> bool {
    slots.no_duplicates() && slots.len() <= capacity
}

/// The slot that a lookup of `color` yields: the slot that already holds it,
/// else the next free slot, else nothing when the table is full.
pub open spec fn assigned_slot(slots: Seq<GbaColor>, capacity: nat, color: GbaColor) -> Option<
    nat,
> {
    if slots.contains(color) {
        Some(slots.index_of(color) as nat)
    } else if slots.len() < capacity {
        Some(slots.len())
    } else {
        None
    }
}

/// The allocated slots after a lookup of `color`: one more slot when the
/// colour is new and the table has room, and the same slots otherwise.
pub open spec fn slots_after(slots: Seq<GbaColor>, capacity: nat, color: GbaColor) -> Seq<
    GbaColor,
> {
    if !slots.contains(color) && slots.len() < capacity {
        slots.push(color)
    } else {
        slots
    }
}

/// The distinct colours of `colors`, each at the place of its first
/// occurrence.
pub open spec fn first_seen(colors: Seq<GbaColor>) -> Seq<GbaColor>
    decreases colors.len(),
{
    if colors.len() == 0 {
        Seq::empty()
    } else {
        let earlier = first_seen(colors.drop_last());
        if earlier.contains(colors.last()) {
            earlier
        } else {
            earlier.push(colors.last())
        }
    }
}

/// The byte layout of a palette: two bytes for each of `capacity` slots, the
/// low byte of the colour first, and zeros for a slot that was never
/// allocated.
pub open spec fn serialized(slots: Seq<GbaColor>, capacity: nat) -> Seq<u8> {
    Seq::new(
        2 * capacity,
        |k: int|
            if k / 2 < slots.len() {
                if k % 2 == 0 {
                    (slots[k / 2].0 % 256) as u8
                } else {
                    (slots[k / 2].0 / 256) as u8
                }
            } else {
                0u8
            },
    )
}

/// The 16-bit little-endian value that a serialized palette holds for `slot`.
pub open spec fn stored_color(bytes: Seq<u8>, slot: int) -> int {
    bytes[2 * slot] + 256 * bytes[2 * slot + 1]
}

/// A bounded table that assigns consecutive slots to hardware colours in the
/// order in which they are first looked up.
pub struct Pallete {
    max_count: usize,
    index_by_color: HashMap<u16, usize>,
    color_by_index: Vec<GbaColor>,
}

impl View for Pallete {
    type V = Seq<GbaColor>;

    /// The allocated slots, in slot order.
    closed spec fn view(&self) -> Seq<GbaColor> {
        self.color_by_index@
    }
}

impl Pallete {
    /// The number of slots that the table was made with.
    pub closed spec fn capacity(&self) -> nat {
        self.max_count as nat
    }

    /// The lookup index and the slots are inverses of each other.
    pub closed spec fn index_agrees(&self) -> bool {
        &&& forall|i: int|
            0 <= i < self.color_by_index@.len() ==> {
                &&& self.index_by_color@.contains_key(#[trigger] self.color_by_index@[i].0)
                &&& self.index_by_color@[self.color_by_index@[i].0] == i
            }
        &&& forall|k: u16| #[trigger]
            self.index_by_color@.contains_key(k) ==> {
                &&& self.index_by_color@[k] < self.color_by_index@.len()
                &&& self.color_by_index@[self.index_by_color@[k] as int].0 == k
            }
    }

    /// Well-formedness: the slots are valid for the capacity, and the lookup
    /// index agrees with them.
    pub open spec fn wf(&self) -> bool {
        valid_slots(self@, self.capacity()) && self.index_agrees()
    }

    /// An empty table of `max_count` slots.
    pub fn new(max_count: usize) -> (table: Pallete)
        ensures
            table.wf(),
            table.capacity() == max_count,
            table@ == Seq::<GbaColor>::empty(),
    {
        Pallete { max_count, index_by_color: HashMap::new(), color_by_index: Vec::new() }
    }

    /// The capacity of the table.
    pub fn max_count(&self) -> (n: usize)
        ensures
            n == self.capacity(),
    {
        self.max_count
    }

    /// The number of slots allocated so far, which is also the slot that the
    /// next new colour gets.
    pub fn next_free(&self) -> (n: usize)
        ensures
            n == self@.len(),
    {
        self.color_by_index.len()
    }

    /// Returns the slot of the hardware colour of `color`, allocating the next
    /// free slot if the colour is new. Returns `None`, and leaves the table as
    /// it was, when the colour is new and every slot is taken.
    pub fn lookup_or_insert(&mut self, color: TrueColor) -> (slot: Option<usize>)
        requires
            old(self).wf(),
        ensures
            final(self).wf(),
            final(self).capacity() == old(self).capacity(),
            match slot {
                Some(i) => assigned_slot(old(self)@, old(self).capacity(), quantized(color))
                    == Some(i as nat),
                None => assigned_slot(old(self)@, old(self).capacity(), quantized(color)) is None,
            },
            final(self)@ == slots_after(old(self)@, old(self).capacity(), quantized(color)),
    {
        let color: GbaColor = GbaColor::from(color);
        let ghost slots = self.color_by_index@;
        match self.index_by_color.get(&color.0) {
            Some(idx) => {
                proof {
                    assert(slots[*idx as int] == color);
                    assert(slots.index_of(color) == *idx);
                }
                Some(*idx)
            },
            None => {
                assert(!slots.contains(color)) by {
                    if slots.contains(color) {
                        let i = slots.index_of(color);
                        assert(self.index_by_color@.contains_key(slots[i].0));
                    }
                }
                if self.color_by_index.len() == self.max_count {
                    None
                } else {
                    let idx: usize = self.color_by_index.len();
                    self.index_by_color.insert(color.0, idx);
                    self.color_by_index.push(color);
                    proof {
                        lemma_slots_after_valid(slots, self.capacity(), color);
                        assert forall|i: int| 0 <= i < self.color_by_index@.len() implies {
                            &&& self.index_by_color@.contains_key(
                                #[trigger] self.color_by_index@[i].0,
                            )
                            &&& self.index_by_color@[self.color_by_index@[i].0] == i
                        } by {
                            if i < slots.len() {
                                assert(self.color_by_index@[i] == slots[i]);
                                assert(slots[i].0 != color.0);
                            }
                        }
                    }
                    Some(idx)
                }
            },
        }
    }

    /// Lays the palette out as bytes: slot `i` takes bytes `2i` and `2i + 1`,
    /// low byte first, and a slot that was never allocated is two zero bytes.
    pub fn serialize(&self) -> (data: Vec<u8>)
        requires
            self.wf(),
            2 * self.capacity() <= isize::MAX,
        ensures
            data@ == serialized(self@, self.capacity()),
    {
        let mut data: Vec<u8> = Vec::new();
        let mut i: usize = 0;
        while i < self.max_count
            invariant
                i <= self.max_count,
                data@.len() == 2 * i,
                forall|k: int|
                    0 <= k < 2 * i ==> data@[k] == serialized(self@, self.capacity())[k],
            decreases self.max_count - i,
        {
            if i < self.color_by_index.len() {
                let color: GbaColor = self.color_by_index[i];
                let value: u16 = color.0;
                let low: u16 = value & 0xff;
                let high: u16 = value >> 8;
                assert(low == value % 256 && high == value / 256 && low < 256 && high < 256)
                    by (bit_vector)
                    requires
                        low == value & 0xff,
                        high == value >> 8,
                ;
                data.push(low as u8);
                data.push(high as u8);
            } else {
                data.push(0);
                data.push(0);
            }
            i += 1;
        }
        data
    }
}

/// A lookup keeps the slots valid, changes no slot that was allocated before
/// it, and the slot it returns holds the colour that was looked up.
pub proof fn lemma_slots_after_valid(slots: Seq<GbaColor>, capacity: nat, color: GbaColor)
    requires
        valid_slots(slots, capacity),
    ensures
        valid_slots(slots_after(slots, capacity, color), capacity),
        slots.len() <= slots_after(slots, capacity, color).len() <= slots.len() + 1,
        forall|i: int| 0 <= i < slots.len() ==> slots_after(slots, capacity, color)[i] == slots[i],
        assigned_slot(slots, capacity, color) matches Some(slot) ==> {
            &&& slot < slots_after(slots, capacity, color).len()
            &&& slots_after(slots, capacity, color)[slot as int] == color
        },
        assigned_slot(slots, capacity, color) is None <==> !slots.contains(color) && slots.len()
            == capacity,
        !slots.contains(color) && slots.len() < capacity ==> assigned_slot(slots, capacity, color)
            == Some(slots.len()),
{
    if slots.contains(color) {
        let i = slots.index_of(color);
        assert(0 <= i < slots.len() && slots[i] == color);
    }
}

/// Looking up a colour, and then one with the same hardware colour, returns
/// the same slot both times, and the second lookup allocates nothing. A
/// lookup that failed fails again.
pub proof fn lemma_lookup_idempotent(
    slots: Seq<GbaColor>,
    capacity: nat,
    first: TrueColor,
    second: TrueColor,
)
    requires
        valid_slots(slots, capacity),
        quantized(first) == quantized(second),
    ensures
        ({
            let once = slots_after(slots, capacity, quantized(first));
            let twice = slots_after(once, capacity, quantized(second));
            &&& assigned_slot(once, capacity, quantized(second)) == assigned_slot(
                slots,
                capacity,
                quantized(first),
            )
            &&& twice == once
            &&& twice.len() == once.len()
        }),
{
    let color = quantized(first);
    let once = slots_after(slots, capacity, color);
    if !slots.contains(color) && slots.len() < capacity {
        assert(once[slots.len() as int] == color);
        lemma_slots_after_valid(slots, capacity, color);
        assert(once.index_of(color) == slots.len());
    }
}

/// Reading a serialized palette back: every allocated slot gives its colour,
/// every other slot gives zero, and the buffer is two bytes per slot long.
pub proof fn lemma_serialized_round_trip(slots: Seq<GbaColor>, capacity: nat)
    requires
        slots.len() <= capacity,
    ensures
        serialized(slots, capacity).len() == 2 * capacity,
        forall|i: int|
            0 <= i < slots.len() ==> #[trigger] stored_color(serialized(slots, capacity), i)
                == slots[i].0,
        forall|i: int|
            slots.len() <= i < capacity ==> #[trigger] stored_color(
                serialized(slots, capacity),
                i,
            ) == 0,
{
}

/// The colours in order of first occurrence hold no colour twice, and hold
/// exactly the colours that occur.
pub proof fn lemma_first_seen_distinct(colors: Seq<GbaColor>)
    ensures
        first_seen(colors).no_duplicates(),
        first_seen(colors).len() <= colors.len(),
        forall|c: GbaColor| first_seen(colors).contains(c) <==> colors.contains(c),
    decreases colors.len(),
{
    if colors.len() > 0 {
        let front = colors.drop_last();
        let earlier = first_seen(front);
        lemma_first_seen_distinct(front);
        assert forall|c: GbaColor| first_seen(colors).contains(c) <==> colors.contains(c) by {
            if colors.contains(c) {
                let i = colors.index_of(c);
                if i < front.len() {
                    assert(front[i] == c);
                    assert(front.contains(c));
                    let j = earlier.index_of(c);
                    assert(first_seen(colors)[j] == c);
                } else if !earlier.contains(c) {
                    assert(first_seen(colors)[earlier.len() as int] == c);
                }
            }
            if first_seen(colors).contains(c) {
                let j = first_seen(colors).index_of(c);
                if j < earlier.len() {
                    assert(earlier[j] == c);
                    assert(front.contains(c));
                    let i = front.index_of(c);
                    assert(colors[i] == c);
                } else {
                    assert(colors[colors.len() - 1] == c);
                }
            }
        }
    }
}

/// Seeing more colours never changes the slots of those seen before: the
/// first-seen order of a prefix is a prefix of the first-seen order of the
/// whole.
pub proof fn lemma_first_seen_prefix(colors: Seq<GbaColor>, n: int)
    requires
        0 <= n <= colors.len(),
    ensures
        first_seen(colors.take(n)).is_prefix_of(first_seen(colors)),
    decreases colors.len() - n,
{
    if n == colors.len() {
        assert(colors.take(n) =~= colors);
    } else {
        lemma_first_seen_prefix(colors, n + 1);
        assert(colors.take(n + 1).drop_last() =~= colors.take(n));
    }
}

/// Looking up the colours of a sequence one after the other, in a table that
/// has room, allocates the slots in order of first occurrence.
pub proof fn lemma_first_seen_step(colors: Seq<GbaColor>, capacity: nat, color: GbaColor)
    requires
        first_seen(colors.push(color)).len() <= capacity,
    ensures
        first_seen(colors.push(color)) == slots_after(first_seen(colors), capacity, color),
        first_seen(colors).len() <= capacity,
{
    assert(colors.push(color).drop_last() =~= colors);
}

} // verus!
