//! A ring buffer for one reader and one writer.
//!
//! The storage core owns a power-of-two array of slots and two wrapping
//! cursors. One slot always stays free, so that equal cursors mean "empty".
//! The two views, `Reader` and `Writer`, are capabilities: each names the
//! operations of one side, and every operation is handed the core it works
//! on. A side moves items in a session, which reads the shared cursors once
//! when it opens and writes its own cursor once when it is committed.

use vstd::prelude::*;
use vstd::view::View as _;
use std::marker::PhantomData;
use crate::cursor::{is_mask, phys, max_request, slot_mask, slots_for};
use crate::cursor::{lemma_mask_bounds, lemma_mask_wraps, lemma_phys_range, lemma_phys_period};
use crate::cursor::{lemma_phys_distinct, lemma_phys_step, lemma_phys_distance};
use crate::cursor::{lemma_phys_small, lemma_ring_gap};
use crate::model::Model;

verus! {

/// Why an operation on a view could not go ahead.
#[derive(Debug, Eq, Ord, PartialEq, PartialOrd, Copy, Clone)]
pub enum Error {
    /// The other party to the ring buffer is not available.
    Disconnected,
    /// Not enough space or available data to open the requested block.
    NoMore,
    /// Larger block requested than will fit in the buffer.
    ItWontFit,
}

/// The storage core. It enforces no roles: those are the views' business.
///
/// The four ghost counters are positions in the unbounded stream of items:
/// how many slots the reader has released and emptied, and how many items
/// the writer has published and stored. A position lives in the slot
/// `position % slots`.
pub struct RingBuffer<T> {
    /// One less than the number of slots, which is a power of two.
    capacity: usize,
    wptr: usize,
    rptr: usize,
    buffer: Vec<Option<T>>,
    /// The disposed buffer chained behind this one, once it is on a trash
    /// stack.
    dead: Option<Box<RingBuffer<T>>>,
    ref_cnt: usize,
    released: Ghost<nat>,
    consumed: Ghost<nat>,
    published: Ghost<nat>,
    produced: Ghost<nat>,
}

/// The text that `format!` makes of a slot count and an occupancy, in the
/// shape in which `std::fmt` prints a struct with the fields `capacity` and
/// `size`.
pub uninterp spec fn debug_text(slots: nat, size: nat) -> Seq<char>;

/// Calls `format!` on the two numbers. The text that comes back is known
/// only by its name, `debug_text`.
#[verifier::external_body]
fn debug_line(slots: usize, size: usize) -> (text: String)
    ensures
        text@ == debug_text(slots as nat, size as nat),
{
    format!("RingBuffer {{ capacity: {}, size: {} }}", slots, size)
}

/// Two stretches of slots, each from its first index up to, not including,
/// its second. Together they are one logical window.
pub struct Window {
    pub first: (usize, usize),
    pub second: (usize, usize),
}

impl Window {
    /// The slots of the window, in logical order.
    pub open spec fn slots(self) -> Seq<int> {
        Seq::new((self.first.1 - self.first.0) as nat, |i: int| self.first.0 + i) + Seq::new(
            (self.second.1 - self.second.0) as nat,
            |i: int| self.second.0 + i,
        )
    }
}

impl<T> RingBuffer<T> {
    /// Number of slots.
    spec fn slots(&self) -> int {
        self.capacity + 1
    }

    /// The stored items, oldest first.
    spec fn spec_items(&self) -> Seq<T> {
        Seq::new(
            (self.produced@ - self.consumed@) as nat,
            |j: int| self.buffer@[phys(self.consumed@ + j, self.slots())]->0,
        )
    }

    /// The items of the disposed buffers chained behind this one.
    spec fn spec_chained(&self) -> Seq<Seq<T>>
        decreases self,
    {
        match self.dead {
            None => Seq::empty(),
            Some(next) => seq![next.spec_items()] + next.spec_chained(),
        }
    }

    /// The representation invariant: the cursors are the folded counters, the
    /// counters are in order and under one turn apart, and exactly the slots
    /// between the emptied and the stored position hold an item.
    pub closed spec fn wf(&self) -> bool {
        &&& is_mask(self.capacity)
        &&& self.buffer@.len() == self.capacity + 1
        &&& self.released@ <= self.consumed@ <= self.published@ <= self.produced@
        &&& self.produced@ <= self.released@ + self.capacity
        &&& self.rptr == phys(self.released@ as int, self.slots())
        &&& self.wptr == phys(self.published@ as int, self.slots())
        &&& forall|k: int|
            self.consumed@ <= k < self.produced@ ==> self.buffer@[#[trigger] phys(
                k,
                self.slots(),
            )] is Some
        &&& forall|k: int|
            self.produced@ <= k < self.consumed@ + self.slots() ==> self.buffer@[#[trigger] phys(
                k,
                self.slots(),
            )] is None
    }

    /// This core and every core chained behind it are well-formed and at
    /// rest: a collector may empty and free them.
    pub closed spec fn chain_ready(&self) -> bool
        decreases self,
    {
        &&& self.wf()
        &&& self.consumed@ == self.released@
        &&& self.produced@ == self.published@
        &&& match self.dead {
            None => true,
            Some(next) => next.chain_ready(),
        }
    }

    /// A core at rest with nothing chained behind it is ready for a
    /// collector, and a core that is ready is well-formed and at rest.
    pub proof fn lemma_chain_ready(&self)
        ensures
            self.wf() && self@.quiescent() && self@.chained.len() == 0 ==> self.chain_ready(),
            self.chain_ready() ==> self.wf() && self@.quiescent(),
    {
    }

    /// A well-formed core has a well-formed model, and its capacity is a mask.
    pub proof fn lemma_wf(&self)
        requires
            self.wf(),
        ensures
            self@.wf(),
            is_mask(self@.capacity as usize),
            self@.capacity <= usize::MAX,
    {
        lemma_mask_bounds(self.capacity);
        lemma_phys_range(self.released@ as int, self.slots());
        lemma_phys_range(self.published@ as int, self.slots());
        lemma_phys_step(
            self.released@ as int,
            self.published@ - self.released@,
            self.slots(),
        );
    }

    /// A core for `ref_count` views with room for at least `capacity - 1`
    /// items: the slot count is `capacity` rounded up to a power of two, and
    /// never under 2.
    pub fn new(ref_count: usize, capacity: usize) -> (buf: Self)
        requires
            capacity <= max_request(),
        ensures
            buf.wf(),
            buf@ == Model::<T>::empty((slots_for(capacity as nat) - 1) as nat, ref_count as nat),
            is_mask(buf@.capacity as usize),
            capacity <= buf@.capacity + 1,
            buf@.capacity == 1 || (buf@.capacity + 1) / 2 < capacity,
    {
        let mask = slot_mask(capacity).unwrap();
        proof {
            lemma_mask_bounds(mask);
        }
        let mut buffer: Vec<Option<T>> = Vec::with_capacity(mask + 1);
        let mut i: usize = 0;
        while i <= mask
            invariant
                i <= mask + 1,
                mask < usize::MAX,
                buffer@.len() == i,
                forall|j: int| 0 <= j < i ==> buffer@[j] is None,
            decreases mask + 1 - i,
        {
            buffer.push(None);
            i = i + 1;
        }
        let buf = RingBuffer {
            capacity: mask,
            wptr: 0,
            rptr: 0,
            buffer,
            dead: None,
            ref_cnt: ref_count,
            released: Ghost(0),
            consumed: Ghost(0),
            published: Ghost(0),
            produced: Ghost(0),
        };
        proof {
            assert forall|k: int| 0 <= k < 0 + buf.slots() implies buf.buffer@[#[trigger] phys(
                k,
                buf.slots(),
            )] is None by {
                lemma_phys_range(k, buf.slots());
            }
            assert(buf@.items =~= Seq::<T>::empty());
            assert(buf@.chained =~= Seq::<Seq<T>>::empty());
        }
        buf
    }

    /// A line for logs: the number of slots and the occupancy.
    pub fn describe(&self) -> (text: String)
        requires
            self.wf(),
        ensures
            text@ == debug_text(self@.slots(), self@.size() as nat),
    {
        proof {
            lemma_mask_bounds(self.capacity);
        }
        debug_line(self.capacity + 1, self.size())
    }

    /// Usable capacity: one less than the number of slots.
    pub fn capacity(&self) -> (n: usize)
        ensures
            n == self@.capacity,
    {
        self.capacity
    }

    /// Occupancy, as the two shared cursors show it.
    pub fn size(&self) -> (n: usize)
        requires
            self.wf(),
        ensures
            n == self@.size(),
            n <= self@.capacity,
    {
        proof {
            lemma_mask_bounds(self.capacity);
            lemma_phys_range(self.released@ as int, self.slots());
            lemma_phys_range(self.published@ as int, self.slots());
            lemma_phys_distance(self.released@ as int, self.published@ as int, self.slots());
            lemma_mask_wraps(
                (self.capacity - self.rptr + self.wptr + 1) as usize,
                self.capacity,
            );
        }
        (self.capacity - self.rptr + self.wptr + 1) & self.capacity
    }

    /// Free room, as the two shared cursors show it.
    pub fn available(&self) -> (n: usize)
        requires
            self.wf(),
        ensures
            n == self@.available(),
            n + self@.size() == self@.capacity,
    {
        self.capacity - self.size()
    }

    /// The ring position of the oldest stored item is the model's read head,
    /// and that of the next free slot is its write head.
    proof fn lemma_heads(&self)
        requires
            self.wf(),
        ensures
            self@.read_head() == phys(self.consumed@ as int, self.slots()),
            self@.write_head() == phys(self.produced@ as int, self.slots()),
            0 <= self@.read_head() <= self.capacity,
            0 <= self@.write_head() <= self.capacity,
    {
        lemma_mask_bounds(self.capacity);
        lemma_phys_step(self.released@ as int, self.consumed@ - self.released@, self.slots());
        lemma_phys_step(self.published@ as int, self.produced@ - self.published@, self.slots());
        lemma_phys_range(self.consumed@ as int, self.slots());
        lemma_phys_range(self.produced@ as int, self.slots());
    }

    /// Moves the oldest stored item out of its slot, which `idx` must be.
    /// The shared cursor stays: the slot is not released yet.
    fn take_at(&mut self, idx: usize) -> (item: T)
        requires
            old(self).wf(),
            old(self)@.readable() > 0,
            idx == old(self)@.read_head(),
        ensures
            final(self).wf(),
            final(self)@ == old(self)@.take(),
            item == old(self)@.items[0],
    {
        proof {
            self.lemma_heads();
            lemma_mask_bounds(self.capacity);
            assert(self.buffer@[phys(self.consumed@ as int, self.slots())] is Some);
        }
        let item = self.buffer[idx].take().unwrap();
        proof {
            let slots = self.slots();
            let head = self.consumed@ as int;
            assert forall|k: int| head + 1 <= k < self.produced@ implies self.buffer@[#[trigger] phys(
                k,
                slots,
            )] is Some by {
                lemma_phys_distinct(head, k, slots);
                lemma_phys_range(k, slots);
                assert(old(self).buffer@[phys(k, slots)] is Some);
            }
            assert forall|k: int| self.produced@ <= k < head + 1 + slots implies self.buffer@[#[trigger] phys(
                k,
                slots,
            )] is None by {
                lemma_phys_range(k, slots);
                if k == head + slots {
                    lemma_phys_period(head, slots);
                } else {
                    lemma_phys_distinct(head, k, slots);
                    assert(old(self).buffer@[phys(k, slots)] is None);
                }
            }
            assert forall|j: int| 0 <= j < self.produced@ - head - 1 implies self.buffer@[#[trigger] phys(
                head + 1 + j,
                slots,
            )] == old(self).buffer@[phys(head + (j + 1), slots)] by {
                lemma_phys_distinct(head, head + 1 + j, slots);
                lemma_phys_range(head + 1 + j, slots);
            }
        }
        self.consumed = Ghost((self.consumed@ + 1) as nat);
        proof {
            assert(self.spec_items() =~= old(self).spec_items().drop_first());
        }
        item
    }

    /// Stores `item` in the next free slot, which `idx` must be. The shared
    /// cursor stays: the item is not published yet.
    fn put_at(&mut self, idx: usize, item: T)
        requires
            old(self).wf(),
            old(self)@.writable() > 0,
            idx == old(self)@.write_head(),
        ensures
            final(self).wf(),
            final(self)@ == old(self)@.put(item),
    {
        proof {
            self.lemma_heads();
            lemma_mask_bounds(self.capacity);
        }
        self.buffer[idx] = Some(item);
        proof {
            let slots = self.slots();
            let tail = self.produced@ as int;
            let head = self.consumed@ as int;
            assert forall|k: int| head <= k < tail + 1 implies self.buffer@[#[trigger] phys(
                k,
                slots,
            )] is Some by {
                lemma_phys_range(k, slots);
                if k < tail {
                    lemma_phys_distinct(k, tail, slots);
                    assert(old(self).buffer@[phys(k, slots)] is Some);
                }
            }
            assert forall|k: int| tail + 1 <= k < head + slots implies self.buffer@[#[trigger] phys(
                k,
                slots,
            )] is None by {
                lemma_phys_range(k, slots);
                lemma_phys_distinct(tail, k, slots);
                assert(old(self).buffer@[phys(k, slots)] is None);
            }
            assert forall|j: int| 0 <= j < tail - head implies self.buffer@[#[trigger] phys(head + j, slots)]
                == old(self).buffer@[phys(head + j, slots)] by {
                lemma_phys_distinct(head + j, tail, slots);
                lemma_phys_range(head + j, slots);
            }
        }
        self.produced = Ghost((self.produced@ + 1) as nat);
        proof {
            assert(self.spec_items() =~= old(self).spec_items().push(item));
        }
    }

    /// Releases the slots emptied so far: the shared read cursor moves up to
    /// `cursor`, which must be the slot of the oldest stored item.
    fn release_to(&mut self, cursor: usize)
        requires
            old(self).wf(),
            cursor == old(self)@.read_head(),
        ensures
            final(self).wf(),
            final(self)@ == old(self)@.release(),
    {
        proof {
            self.lemma_heads();
        }
        self.rptr = cursor;
        self.released = Ghost(self.consumed@);
        proof {
            assert(self.spec_items() =~= old(self).spec_items());
        }
    }

    /// Publishes the items stored so far: the shared write cursor moves up to
    /// `cursor`, which must be the next free slot.
    fn publish_to(&mut self, cursor: usize)
        requires
            old(self).wf(),
            cursor == old(self)@.write_head(),
        ensures
            final(self).wf(),
            final(self)@ == old(self)@.publish(),
    {
        proof {
            self.lemma_heads();
        }
        self.wptr = cursor;
        self.published = Ghost(self.produced@);
        proof {
            assert(self.spec_items() =~= old(self).spec_items());
        }
    }

    /// The slots of a logical window of `count` positions that starts at
    /// position `base`: one stretch if the window ends at or before the
    /// physical end of the array, else the stretch up to the end and the
    /// wrapped rest from slot 0.
    pub fn get_range(&self, base: usize, count: usize) -> (w: Window)
        requires
            self.wf(),
            count <= self@.capacity + 1,
        ensures
            w.slots() == Seq::new(count as nat, |i: int| phys(base + i, self@.slots() as int)),
            w.first.0 == phys(base as int, self@.slots() as int),
            w.first.0 <= w.first.1 <= self@.capacity + 1,
            w.second.0 == 0,
            w.second.1 <= w.first.0,
            w.first.0 + count <= self@.capacity + 1 ==> w.second.1 == 0,
    {
        let ghost slots = self.slots();
        proof {
            lemma_mask_bounds(self.capacity);
            lemma_mask_wraps(base, self.capacity);
        }
        let start = base & self.capacity;
        proof {
            lemma_mask_wraps((start + count) as usize, self.capacity);
            if start + count < slots {
                lemma_phys_small(start + count, slots);
            } else {
                lemma_phys_period(start + count - slots, slots);
                lemma_phys_small(start + count - slots, slots);
            }
        }
        let end = (start + count) & self.capacity;
        let w = if start < end || count == 0 {
            Window { first: (start, start + count), second: (0, 0) }
        } else {
            Window { first: (start, self.capacity + 1), second: (0, end) }
        };
        proof {
            let want = Seq::new(count as nat, |i: int| phys(base + i, slots));
            assert(w.slots().len() == count);
            assert forall|i: int| 0 <= i < count implies w.slots()[i] == want[i] by {
                lemma_phys_step(base as int, i, slots);
                if start + i < slots {
                    lemma_phys_small(start + i, slots);
                } else {
                    lemma_phys_period(start + i - slots, slots);
                    lemma_phys_small(start + i - slots, slots);
                }
            }
            assert(w.slots() =~= want);
        }
        w
    }

    /// Empties the core before it is freed: every item still stored between
    /// the two cursors is moved out, oldest first, over one stretch of slots
    /// or, where the items wrap round the end of the array, over two.
    pub fn release(&mut self) -> (items: Vec<T>)
        requires
            old(self).wf(),
            old(self)@.quiescent(),
        ensures
            final(self).wf(),
            items@ == old(self)@.items,
            final(self)@ == old(self)@.drained(),
    {
        let ghost before = self@;
        let ghost slots = self.slots();
        let rptr = self.rptr;
        let wptr = self.wptr;
        let mut items: Vec<T> = Vec::new();
        proof {
            self.lemma_wf();
            before.lemma_size_from_cursors();
            lemma_mask_bounds(self.capacity);
            assert(before.take_n(0).items =~= before.items);
        }
        if rptr < wptr {
            let mut i = rptr;
            while i < wptr
                invariant
                    self.wf(),
                    rptr <= i <= wptr <= before.capacity,
                    slots == before.capacity + 1,
                    rptr == before.read_cursor,
                    before.quiescent(),
                    before.items.len() == wptr - rptr,
                    self@ == before.take_n((i - rptr) as nat),
                    items@ == before.items.take(i - rptr),
                decreases wptr - i,
            {
                proof {
                    lemma_phys_small(i as int, slots);
                }
                let item = self.take_at(i);
                items.push(item);
                i = i + 1;
                proof {
                    assert(self@.items =~= before.items.skip(i - rptr));
                    assert(items@ =~= before.items.take(i - rptr));
                }
            }
        } else if rptr > wptr {
            let mut i = rptr;
            while i < self.capacity + 1
                invariant
                    self.wf(),
                    wptr < rptr <= i <= before.capacity + 1,
                    self.capacity == before.capacity,
                    before.capacity < usize::MAX,
                    slots == before.capacity + 1,
                    rptr == before.read_cursor,
                    before.quiescent(),
                    before.items.len() == wptr - rptr + slots,
                    self@ == before.take_n((i - rptr) as nat),
                    items@ == before.items.take(i - rptr),
                decreases before.capacity + 1 - i,
            {
                proof {
                    lemma_phys_small(i as int, slots);
                }
                let item = self.take_at(i);
                items.push(item);
                i = i + 1;
                proof {
                    assert(self@.items =~= before.items.skip(i - rptr));
                    assert(items@ =~= before.items.take(i - rptr));
                }
            }
            let mut i: usize = 0;
            while i < wptr
                invariant
                    self.wf(),
                    i <= wptr < rptr <= before.capacity,
                    slots == before.capacity + 1,
                    rptr == before.read_cursor,
                    before.quiescent(),
                    before.items.len() == wptr - rptr + slots,
                    self@ == before.take_n((slots - rptr + i) as nat),
                    items@ == before.items.take(slots - rptr + i),
                decreases wptr - i,
            {
                proof {
                    lemma_phys_period(i as int, slots);
                    lemma_phys_small(i as int, slots);
                }
                let item = self.take_at(i);
                items.push(item);
                i = i + 1;
                proof {
                    assert(self@.items =~= before.items.skip(slots - rptr + i));
                    assert(items@ =~= before.items.take(slots - rptr + i));
                }
            }
        }
        proof {
            assert(self@.items =~= Seq::<T>::empty());
            assert(items@ =~= before.items);
        }
        self.release_to(wptr);
        items
    }
    /// Takes this core off the chain of disposed cores: hands out the chain
    /// that was linked behind it, for a collector that frees the cores one by
    /// one.
    pub fn unlink(&mut self) -> (next: Option<Box<RingBuffer<T>>>)
        ensures
            chain_of(next) == old(self)@.chained,
            final(self)@ == old(self)@.link(Seq::empty()),
            old(self).wf() ==> final(self).wf(),
            old(self).chain_ready() ==> trash_ready(next) && final(self).chain_ready(),
    {
        let next = self.dead.take();
        proof {
            assert(self.spec_items() =~= old(self).spec_items());
            assert(self.spec_chained() =~= Seq::<Seq<T>>::empty());
        }
        next
    }
}

impl<T> vstd::view::View for RingBuffer<T> {
    type V = Model<T>;

    closed spec fn view(&self) -> Model<T> {
        Model {
            capacity: self.capacity as nat,
            items: self.spec_items(),
            taken: (self.consumed@ - self.released@) as nat,
            filled: (self.produced@ - self.published@) as nat,
            read_cursor: self.rptr as nat,
            write_cursor: self.wptr as nat,
            live: self.ref_cnt as nat,
            chained: self.spec_chained(),
        }
    }
}

/// The role of a view: which cursor it owns, and how far a session of it may
/// go.
pub trait ViewType {
    /// The cursor that this side owns.
    spec fn spec_base(read_cursor: nat, write_cursor: nat) -> nat;

    /// How many slots a session of this side may claim.
    spec fn spec_limit(size: int, capacity: int) -> int;

    /// The position of this side's cursor.
    fn base_ptr<T>(buf: &RingBuffer<T>) -> (cursor: usize)
        requires
            buf.wf(),
        ensures
            cursor == Self::spec_base(buf@.read_cursor, buf@.write_cursor),
            cursor <= buf@.capacity,
    ;

    /// How many slots this side may claim right now.
    fn limit<T>(buf: &RingBuffer<T>) -> (n: usize)
        requires
            buf.wf(),
        ensures
            n == Self::spec_limit(buf@.size(), buf@.capacity as int),
            n <= buf@.capacity,
    ;
}

/// The reading side: it owns the read cursor and may claim what is occupied.
#[derive(Debug)]
pub struct ReaderView {}

/// The writing side: it owns the write cursor and may claim what is free.
#[derive(Debug)]
pub struct WriterView {}

impl ViewType for ReaderView {
    open spec fn spec_base(read_cursor: nat, write_cursor: nat) -> nat {
        read_cursor
    }

    open spec fn spec_limit(size: int, capacity: int) -> int {
        size
    }

    fn base_ptr<T>(buf: &RingBuffer<T>) -> (cursor: usize) {
        proof {
            buf.lemma_wf();
        }
        buf.rptr
    }

    fn limit<T>(buf: &RingBuffer<T>) -> (n: usize) {
        buf.size()
    }
}

impl ViewType for WriterView {
    open spec fn spec_base(read_cursor: nat, write_cursor: nat) -> nat {
        write_cursor
    }

    open spec fn spec_limit(size: int, capacity: int) -> int {
        capacity - size
    }

    fn base_ptr<T>(buf: &RingBuffer<T>) -> (cursor: usize) {
        proof {
            buf.lemma_wf();
        }
        buf.wptr
    }

    fn limit<T>(buf: &RingBuffer<T>) -> (n: usize) {
        buf.available()
    }
}

/// A window of slots claimed by a session, walked one slot at a time. It
/// holds only indices: nothing is synchronised while it advances.
pub struct PtrIter {
    capacity: usize,
    start: usize,
    end: usize,
}

impl PtrIter {
    /// The window lies in a ring whose slot count is a power of two.
    pub closed spec fn wf(&self) -> bool {
        &&& is_mask(self.capacity)
        &&& self.start <= self.capacity
        &&& self.end <= self.capacity
    }

    /// The mask of the ring that the window lies in.
    pub closed spec fn mask(&self) -> int {
        self.capacity as int
    }

    /// The slot that comes next.
    pub closed spec fn position(&self) -> int {
        self.start as int
    }

    /// How many slots are left in the window.
    pub closed spec fn remaining(&self) -> int {
        phys(self.end - self.start, self.capacity + 1)
    }

    /// What is left of the window is the way from `start` round to `end`.
    proof fn lemma_remaining(&self)
        requires
            self.wf(),
        ensures
            0 <= self.remaining() <= self.capacity,
            self.remaining() == if self.end >= self.start {
                self.end - self.start
            } else {
                self.end - self.start + self.capacity + 1
            },
    {
        lemma_mask_bounds(self.capacity);
        lemma_ring_gap(self.start as int, self.end as int, self.capacity + 1);
    }

    /// Whether the window is exhausted.
    pub fn is_done(&self) -> (done: bool)
        requires
            self.wf(),
        ensures
            done <==> self.remaining() == 0,
    {
        proof {
            self.lemma_remaining();
        }
        self.start == self.end
    }

    /// How many slots are left in the window.
    pub fn len(&self) -> (n: usize)
        requires
            self.wf(),
        ensures
            n == self.remaining(),
            n <= self.mask(),
    {
        proof {
            self.lemma_remaining();
            lemma_mask_bounds(self.capacity);
        }
        if self.end >= self.start {
            self.end - self.start
        } else {
            self.capacity - self.start + self.end + 1
        }
    }

    /// The next slot of a window that is not exhausted; the window moves on
    /// by one, wrapping at the end of the array.
    fn advance(&mut self) -> (slot: usize)
        requires
            old(self).wf(),
            old(self).remaining() > 0,
        ensures
            final(self).wf(),
            final(self).mask() == old(self).mask(),
            slot == old(self).position(),
            final(self).position() == phys(old(self).position() + 1, old(self).mask() + 1),
            final(self).remaining() == old(self).remaining() - 1,
    {
        proof {
            self.lemma_remaining();
            lemma_mask_bounds(self.capacity);
            lemma_mask_wraps((self.start + 1) as usize, self.capacity);
            if self.start < self.capacity {
                lemma_phys_small(self.start + 1, self.capacity + 1);
            } else {
                lemma_phys_period(0, self.capacity + 1);
                lemma_phys_small(0, self.capacity + 1);
            }
        }
        let slot = self.start;
        self.start = (self.start + 1) & self.capacity;
        proof {
            self.lemma_remaining();
        }
        slot
    }

    /// The next slot of the window, if one is left.
    pub fn next(&mut self) -> (slot: Option<usize>)
        requires
            old(self).wf(),
        ensures
            final(self).wf(),
            final(self).mask() == old(self).mask(),
            old(self).remaining() == 0 ==> slot is None && *final(self) == *old(self),
            old(self).remaining() > 0 ==> {
                &&& slot == Some(old(self).position() as usize)
                &&& final(self).position() == phys(
                    old(self).position() + 1,
                    old(self).mask() + 1,
                )
                &&& final(self).remaining() == old(self).remaining() - 1
            },
    {
        proof {
            self.lemma_remaining();
        }
        if self.is_done() {
            None
        } else {
            Some(self.advance())
        }
    }
}

/// A slot for at most one boxed value that is exchanged whole: the trash
/// stack on which disposed cores are left for a collector.
pub struct AtomicOption<T> {
    value: Option<Box<T>>,
}

impl<T> vstd::view::View for AtomicOption<T> {
    type V = Option<Box<T>>;

    closed spec fn view(&self) -> Option<Box<T>> {
        self.value
    }
}

impl<T> AtomicOption<T> {
    /// An empty slot.
    pub fn new() -> (slot: Self)
        ensures
            slot@ is None,
    {
        AtomicOption { value: None }
    }

    /// Takes what the slot holds and leaves it empty.
    pub fn take_box(&mut self) -> (taken: Option<Box<T>>)
        ensures
            taken == old(self)@,
            final(self)@ is None,
    {
        self.value.take()
    }

    /// Puts `new` in the slot and hands back what it held.
    pub fn swap_box(&mut self, new: Box<T>) -> (previous: Option<Box<T>>)
        ensures
            previous == old(self)@,
            final(self)@ == Some(new),
    {
        let previous = self.value.take();
        self.value = Some(new);
        previous
    }
}

/// The items of each core on a chain of disposed cores, from its head on.
pub open spec fn chain_of<T>(head: Option<Box<RingBuffer<T>>>) -> Seq<Seq<T>> {
    match head {
        None => Seq::empty(),
        Some(core) => core@.chain(),
    }
}

/// Every core on a chain of disposed cores is well-formed and at rest.
pub open spec fn trash_ready<T>(head: Option<Box<RingBuffer<T>>>) -> bool {
    match head {
        None => true,
        Some(core) => core.chain_ready(),
    }
}

/// What each of `lists` holds.
pub open spec fn items_of<T>(lists: Seq<Vec<T>>) -> Seq<Seq<T>> {
    lists.map_values(|items: Vec<T>| items@)
}

/// Empties the trash stack: every core on it is emptied and freed, from the
/// head of the chain on. What comes back is what was still stored in each.
pub fn reclaim<T>(trash: &mut AtomicOption<RingBuffer<T>>) -> (left: Vec<Vec<T>>)
    requires
        trash_ready(old(trash)@),
    ensures
        final(trash)@ is None,
        items_of(left@) == chain_of(old(trash)@),
{
    let mut left: Vec<Vec<T>> = Vec::new();
    let mut next = trash.take_box();
    proof {
        assert(items_of(left@) + chain_of(next) =~= chain_of(
            old(trash)@,
        ));
    }
    loop
        invariant_except_break
            trash_ready(next),
            trash@ is None,
            items_of(left@) + chain_of(next) == chain_of(old(trash)@),
        ensures
            trash@ is None,
            items_of(left@) == chain_of(old(trash)@),
        decreases chain_of(next).len(),
    {
        match next {
            None => {
                proof {
                    assert(items_of(left@) + chain_of(next)
                        =~= items_of(left@));
                }
                break ;
            },
            Some(boxed) => {
                let mut core = boxed;
                let ghost so_far = items_of(left@);
                let ghost head = core@;
                proof {
                    core.lemma_chain_ready();
                }
                next = core.unlink();
                let items = core.release();
                left.push(items);
                proof {
                    assert(items_of(left@) =~= so_far.push(head.items));
                    assert(so_far.push(head.items) + chain_of(next) =~= so_far + head.chain());
                }
            },
        }
    }
    left
}

/// One side's handle on a ring buffer. It holds no state of its own: it is
/// the right to act as reader or as writer on the core it was made with.
#[derive(Debug)]
pub struct View<T, VT: ViewType> {
    _phantom: PhantomData<(T, VT)>,
}

/// The reader's handle.
pub type Reader<T> = View<T, ReaderView>;

/// The writer's handle.
pub type Writer<T> = View<T, WriterView>;

impl<T, VT: ViewType> View<T, VT> {
    /// Whether the other view is still alive.
    pub fn check_connected(&self, buf: &RingBuffer<T>) -> (res: Result<(), Error>)
        ensures
            buf@.live > 1 ==> res is Ok,
            buf@.live <= 1 ==> res == Err::<(), Error>(Error::Disconnected),
    {
        if buf.ref_cnt > 1 {
            Ok(())
        } else {
            Err(Error::Disconnected)
        }
    }

    /// Gives this view up. While the other view lives, the core comes back
    /// with one view fewer and the trash stack is not touched. The last view
    /// to go leaves the core on the trash stack, chained in front of what the
    /// stack held.
    pub fn discard(self, buf: Box<RingBuffer<T>>, trash: &mut AtomicOption<RingBuffer<T>>) -> (kept:
        Option<Box<RingBuffer<T>>>)
        requires
            buf@.live >= 1,
            buf@.live == 1 && old(trash)@ is Some ==> buf@.chained.len() == 0,
        ensures
            chain_of(final(trash)@) == buf@.discard(chain_of(old(trash)@)).1,
            kept is Some <==> buf@.live > 1,
            kept matches Some(core) ==> {
                &&& Some(core@) == buf@.discard(chain_of(old(trash)@)).0
                &&& final(trash)@ == old(trash)@
                &&& (buf.wf() ==> core.wf())
            },
            kept is None ==> {
                &&& final(trash)@ matches Some(core)
                &&& core@ == buf@.disconnect().link(core@.chained)
                &&& (buf.wf() ==> core.wf())
            },
            buf.chain_ready() && trash_ready(old(trash)@) ==> trash_ready(final(trash)@) && (
            kept matches Some(core) ==> core.chain_ready()),
    {
        let mut boxed = buf;
        let before = boxed.ref_cnt;
        boxed.ref_cnt = before - 1;
        proof {
            assert(boxed.spec_items() =~= buf.spec_items());
        }
        if before <= 1 {
            // We're the only owner.
            let old_trash = trash.take_box();
            if old_trash.is_some() {
                proof {
                    assert(boxed.dead is None);
                }
                boxed.dead = old_trash;
                proof {
                    assert(boxed.spec_items() =~= buf.spec_items());
                    assert(boxed.spec_chained() =~= chain_of(old(trash)@));
                }
            }
            let _ = trash.swap_box(boxed);
            None
        } else {
            // Otherwise, the other end retains ownership.
            Some(boxed)
        }
    }

    /// What this side may claim right now: the occupancy for the reader, the
    /// free room for the writer.
    pub fn size(&self, buf: &RingBuffer<T>) -> (n: usize)
        requires
            buf.wf(),
        ensures
            n == VT::spec_limit(buf@.size(), buf@.capacity as int),
            n <= buf@.capacity,
    {
        VT::limit(buf)
    }

    /// Claims a window: it starts at this side's cursor and spans what this
    /// side may claim. Both are read here, once.
    fn ptr_iter(&mut self, buf: &RingBuffer<T>) -> (it: PtrIter)
        requires
            buf.wf(),
        ensures
            it.wf(),
            it.mask() == buf@.capacity,
            it.position() == VT::spec_base(buf@.read_cursor, buf@.write_cursor),
            it.remaining() == VT::spec_limit(buf@.size(), buf@.capacity as int),
    {
        let base = VT::base_ptr(buf);
        let limit = VT::limit(buf);
        proof {
            buf.lemma_wf();
            lemma_mask_bounds(buf.capacity);
            lemma_mask_wraps((base + limit) as usize, buf.capacity);
            lemma_phys_small(base as int, buf.slots());
            lemma_phys_distance(base as int, base + limit, buf.slots());
        }
        PtrIter { capacity: buf.capacity, start: base, end: (base + limit) & buf.capacity }
    }
}

/// A read session: a claim on the items that were published when it opened.
/// It moves them out one by one and releases their slots when it is
/// committed.
pub struct ReadIter<'a, T> {
    iter: PtrIter,
    _view: PhantomData<&'a mut Reader<T>>,
}

/// A write session: a claim on the slots that were free when it opened. It
/// fills them one by one and publishes the items when it is committed.
pub struct WriteIter<'a, T> {
    iter: PtrIter,
    _view: PhantomData<&'a mut Writer<T>>,
}

impl<T> Reader<T> {
    /// Opens a read session over what is occupied now.
    pub fn iter(&mut self, buf: &RingBuffer<T>) -> (it: ReadIter<'_, T>)
        requires
            buf.wf(),
            buf@.taken == 0,
        ensures
            it.wf(),
            it.inv(buf),
            it.remaining() == buf@.readable(),
    {
        proof {
            buf.lemma_wf();
            lemma_phys_small(buf@.read_cursor as int, buf@.slots() as int);
        }
        ReadIter { iter: self.ptr_iter(buf), _view: PhantomData }
    }

    /// Moves the oldest item out, if there is one, and releases its slot.
    pub fn pop(&mut self, buf: &mut RingBuffer<T>) -> (item: Option<T>)
        requires
            old(buf).wf(),
            old(buf)@.taken == 0,
        ensures
            final(buf).wf(),
            old(buf)@.readable() == 0 ==> item is None && final(buf)@ == old(buf)@,
            old(buf)@.readable() > 0 ==> item == Some(old(buf)@.items[0]) && final(buf)@ == old(buf)@.pop(),
    {
        let mut session = self.iter(buf);
        let item = session.next(buf);
        session.commit(buf);
        proof {
            if old(buf)@.readable() == 0 {
                old(buf).lemma_wf();
                lemma_phys_small(old(buf)@.read_cursor as int, old(buf)@.slots() as int);
            }
        }
        item
    }
}

impl<T> Writer<T> {
    /// Opens a write session over what is free now.
    pub fn extender(&mut self, buf: &RingBuffer<T>) -> (it: WriteIter<'_, T>)
        requires
            buf.wf(),
            buf@.filled == 0,
        ensures
            it.wf(),
            it.inv(buf),
            it.remaining() == buf@.writable(),
    {
        proof {
            buf.lemma_wf();
            lemma_phys_small(buf@.write_cursor as int, buf@.slots() as int);
        }
        WriteIter { iter: self.ptr_iter(buf), _view: PhantomData }
    }

    /// Stores `item` and publishes it, or hands it back when no slot is free.
    pub fn push(&mut self, buf: &mut RingBuffer<T>, item: T) -> (res: Result<(), T>)
        requires
            old(buf).wf(),
            old(buf)@.filled == 0,
        ensures
            final(buf).wf(),
            old(buf)@.writable() == 0 ==> res == Err::<(), T>(item) && final(buf)@ == old(buf)@,
            old(buf)@.writable() > 0 ==> res is Ok && final(buf)@ == old(buf)@.push(item),
    {
        proof {
            buf.lemma_wf();
            lemma_phys_small(buf@.write_cursor as int, buf@.slots() as int);
        }
        let mut window = self.ptr_iter(buf);
        let res = match window.next() {
            Some(slot) => {
                buf.put_at(slot, item);
                Ok(())
            },
            None => Err(item),
        };
        buf.publish_to(window.start);
        res
    }
}

impl<'a, T> ReadIter<'a, T> {
    /// How many items the session may still take.
    pub closed spec fn remaining(&self) -> int {
        self.iter.remaining()
    }

    /// The slot that the session takes next.
    pub closed spec fn position(&self) -> int {
        self.iter.position()
    }

    /// The window of the session lies in a ring.
    pub closed spec fn wf(&self) -> bool {
        self.iter.wf()
    }

    /// The mask of the ring that the session was opened on.
    pub closed spec fn mask(&self) -> int {
        self.iter.mask()
    }

    /// The session fits `buf`: it stands at the oldest stored item and claims
    /// no more than is published.
    pub open spec fn inv(&self, buf: &RingBuffer<T>) -> bool {
        &&& buf.wf()
        &&& self.wf()
        &&& self.mask() == buf@.capacity
        &&& self.position() == buf@.read_head()
        &&& self.remaining() <= buf@.readable()
    }

    /// A read session stays fit whatever the writer does in between: the
    /// writer moves neither the oldest item nor anything published.
    pub proof fn lemma_survives(&self, before: &RingBuffer<T>, after: &RingBuffer<T>)
        requires
            self.inv(before),
            after.wf(),
            after@.capacity == before@.capacity,
            after@.read_cursor == before@.read_cursor,
            after@.taken == before@.taken,
            after@.readable() >= before@.readable(),
        ensures
            self.inv(after),
    {
    }

    /// Whether the session has taken all that it claimed.
    pub fn is_done(&self) -> (done: bool)
        requires
            self.wf(),
        ensures
            done <==> self.remaining() == 0,
    {
        self.iter.is_done()
    }

    /// Moves the next claimed item out of its slot. Nothing is released yet.
    pub fn next(&mut self, buf: &mut RingBuffer<T>) -> (item: Option<T>)
        requires
            old(self).inv(old(buf)),
        ensures
            final(buf).wf(),
            final(self).wf(),
            final(self).inv(final(buf)),
            final(self).mask() == old(self).mask(),
            old(self).remaining() == 0 ==> {
                &&& item is None
                &&& final(buf)@ == old(buf)@
                &&& final(self).remaining() == 0
            },
            old(self).remaining() > 0 ==> {
                &&& item == Some(old(buf)@.items[0])
                &&& final(buf)@ == old(buf)@.take()
                &&& final(self).remaining() == old(self).remaining() - 1
            },
    {
        match self.iter.next() {
            Some(slot) => {
                let item = buf.take_at(slot);
                proof {
                    lemma_phys_step(
                        (old(buf)@.read_cursor + old(buf)@.taken) as int,
                        1,
                        old(buf)@.slots() as int,
                    );
                }
                Some(item)
            },
            None => None,
        }
    }

    /// Ends the session: the slots it emptied are released to the writer.
    pub fn commit(self, buf: &mut RingBuffer<T>)
        requires
            self.inv(old(buf)),
        ensures
            final(buf).wf(),
            final(buf)@ == old(buf)@.release(),
    {
        buf.release_to(self.iter.start);
    }
}

impl<'a, T> WriteIter<'a, T> {
    /// How many slots the session may still fill.
    pub closed spec fn remaining(&self) -> int {
        self.iter.remaining()
    }

    /// The slot that the session fills next.
    pub closed spec fn position(&self) -> int {
        self.iter.position()
    }

    /// The window of the session lies in a ring.
    pub closed spec fn wf(&self) -> bool {
        self.iter.wf()
    }

    /// The mask of the ring that the session was opened on.
    pub closed spec fn mask(&self) -> int {
        self.iter.mask()
    }

    /// The session fits `buf`: it stands at the next free slot and claims no
    /// more than is released.
    pub open spec fn inv(&self, buf: &RingBuffer<T>) -> bool {
        &&& buf.wf()
        &&& self.wf()
        &&& self.mask() == buf@.capacity
        &&& self.position() == buf@.write_head()
        &&& self.remaining() <= buf@.writable()
    }

    /// A write session stays fit whatever the reader does in between: the
    /// reader moves neither the next free slot nor anything released.
    pub proof fn lemma_survives(&self, before: &RingBuffer<T>, after: &RingBuffer<T>)
        requires
            self.inv(before),
            after.wf(),
            after@.capacity == before@.capacity,
            after@.write_cursor == before@.write_cursor,
            after@.filled == before@.filled,
            after@.writable() >= before@.writable(),
        ensures
            self.inv(after),
    {
    }

    /// Whether the session has filled all that it claimed.
    pub fn is_done(&self) -> (done: bool)
        requires
            self.wf(),
        ensures
            done <==> self.remaining() == 0,
    {
        self.iter.is_done()
    }

    /// Stores items of `input`, from its first on, in the claimed slots until
    /// the slots or the items run out, and hands back the items that are
    /// left. Nothing is published yet.
    pub fn extend(&mut self, buf: &mut RingBuffer<T>, input: Vec<T>) -> (rest: Vec<T>)
        requires
            old(self).inv(old(buf)),
        ensures
            final(buf).wf(),
            final(self).wf(),
            final(self).inv(final(buf)),
            final(self).mask() == old(self).mask(),
            ({
                let n = if input@.len() <= old(self).remaining() {
                    input@.len() as int
                } else {
                    old(self).remaining()
                };
                &&& final(buf)@ == old(buf)@.put_all(input@.take(n))
                &&& rest@ == input@.skip(n)
                &&& final(self).remaining() == old(self).remaining() - n
            }),
    {
        let mut input = input;
        let ghost all = input@;
        let room = self.iter.len();
        let n = if input.len() <= room {
            input.len()
        } else {
            room
        };
        let rest = input.split_off(n);
        proof {
            assert(input@ =~= all.take(n as int));
            assert(rest@ =~= all.skip(n as int));
            assert(old(buf)@.put_all(all.take(0)).items =~= old(buf)@.items);
        }
        for item in it: input
            invariant
                it.index() <= n,
                it.seq() == all.take(n as int),
                n <= all.len(),
                n <= old(self).remaining(),
                self.inv(buf),
                self.remaining() == old(self).remaining() - it.index(),
                buf@ == old(buf)@.put_all(all.take(it.index() as int)),
        {
            let ghost i = it.index() as int;
            let ghost mid = buf@;
            let slot = self.iter.advance();
            buf.put_at(slot, item);
            proof {
                assert(all.take(i + 1) =~= all.take(i).push(item));
                assert(buf@.items =~= old(buf)@.items + all.take(i + 1));
                lemma_phys_step(
                    (mid.write_cursor + mid.filled) as int,
                    1,
                    mid.slots() as int,
                );
            }
        }
        rest
    }

    /// Ends the session: the items it stored are published to the reader.
    pub fn commit(self, buf: &mut RingBuffer<T>)
        requires
            self.inv(old(buf)),
        ensures
            final(buf).wf(),
            final(buf)@ == old(buf)@.publish(),
    {
        buf.publish_to(self.iter.start);
    }
}

/// A ring buffer with room for at least `size - 1` items, and its two views.
pub fn new<T>(size: usize) -> (made: (Box<RingBuffer<T>>, Reader<T>, Writer<T>))
    requires
        size <= max_request(),
    ensures
        made.0.wf(),
        made.0@ == Model::<T>::empty((slots_for(size as nat) - 1) as nat, 2),
        is_mask(made.0@.capacity as usize),
        size <= made.0@.capacity + 1,
        made.0@.capacity == 1 || (made.0@.capacity + 1) / 2 < size,
{
    let buffer = Box::new(RingBuffer::new(2, size));
    (buffer, View { _phantom: PhantomData }, View { _phantom: PhantomData })
}

} // verus!
