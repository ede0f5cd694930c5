//! The abstract state of a ring buffer and the steps that change it.
//!
//! The buffer is a bounded queue with two owners. Each owner works in
//! sessions: a session moves items one by one without telling the other side,
//! and tells it once, when it ends. So the state records, besides the items,
//! how many slots the reader has emptied without releasing them yet and how
//! many items the writer has stored without publishing them yet.

use vstd::prelude::*;
use crate::cursor::{phys, lemma_phys_small, lemma_phys_period, lemma_phys_range, lemma_phys_step};

verus! {

/// What a ring buffer holds.
pub struct Model<T> {
    /// Usable capacity: one less than the number of slots.
    pub capacity: nat,
    /// The items stored in the slots, oldest first.
    pub items: Seq<T>,
    /// Slots emptied by the reader and not yet released to the writer.
    pub taken: nat,
    /// Items at the back of `items` not yet published to the reader.
    pub filled: nat,
    /// The shared read cursor: the slot of the oldest item the reader has not
    /// released.
    pub read_cursor: nat,
    /// The shared write cursor: the slot after the newest published item.
    pub write_cursor: nat,
    /// How many of the two views are still alive.
    pub live: nat,
    /// The items of each disposed buffer chained behind this one, nearest
    /// first.
    pub chained: Seq<Seq<T>>,
}

impl<T> Model<T> {
    /// A fresh buffer: no item, both cursors on slot 0, nothing chained.
    pub open spec fn empty(capacity: nat, live: nat) -> Self {
        Model {
            capacity,
            items: Seq::empty(),
            taken: 0,
            filled: 0,
            read_cursor: 0,
            write_cursor: 0,
            live,
            chained: Seq::empty(),
        }
    }

    /// Number of slots.
    pub open spec fn slots(self) -> nat {
        self.capacity + 1
    }

    /// Occupancy as the two shared cursors show it.
    pub open spec fn size(self) -> int {
        self.items.len() + self.taken - self.filled
    }

    /// Free room as the two shared cursors show it.
    pub open spec fn available(self) -> int {
        self.capacity - self.size()
    }

    /// Items the reader may still take: the published ones.
    pub open spec fn readable(self) -> int {
        self.items.len() - self.filled
    }

    /// Slots the writer may still fill: the released ones.
    pub open spec fn writable(self) -> int {
        self.capacity - self.items.len() - self.taken
    }

    /// The slot of the oldest stored item.
    pub open spec fn read_head(self) -> int {
        phys((self.read_cursor + self.taken) as int, self.slots() as int)
    }

    /// The slot that the next stored item goes to.
    pub open spec fn write_head(self) -> int {
        phys((self.write_cursor + self.filled) as int, self.slots() as int)
    }

    /// Neither side has moved anything that it has not announced.
    pub open spec fn quiescent(self) -> bool {
        self.taken == 0 && self.filled == 0
    }

    /// The state is one that a ring buffer can be in: what is stored and
    /// what is emptied but not released fit in the capacity, and the write
    /// cursor is as far in front of the read cursor as the occupancy says.
    pub open spec fn wf(self) -> bool {
        &&& 1 <= self.capacity
        &&& self.filled <= self.items.len()
        &&& self.items.len() + self.taken <= self.capacity
        &&& self.read_cursor <= self.capacity
        &&& self.write_cursor <= self.capacity
        &&& self.write_cursor == phys(self.read_cursor + self.size(), self.slots() as int)
    }

    /// The reader moves the oldest item out of its slot.
    pub open spec fn take(self) -> Self {
        Model { items: self.items.drop_first(), taken: self.taken + 1, ..self }
    }

    /// The writer stores `item` in the next free slot.
    pub open spec fn put(self, item: T) -> Self {
        Model { items: self.items.push(item), filled: self.filled + 1, ..self }
    }

    /// The reader releases the slots it has emptied.
    pub open spec fn release(self) -> Self {
        Model { read_cursor: self.read_head() as nat, taken: 0, ..self }
    }

    /// The writer publishes the items it has stored.
    pub open spec fn publish(self) -> Self {
        Model { write_cursor: self.write_head() as nat, filled: 0, ..self }
    }

    /// One item in, announced at once.
    pub open spec fn push(self, item: T) -> Self {
        self.put(item).publish()
    }

    /// One item out, announced at once.
    pub open spec fn pop(self) -> Self {
        self.take().release()
    }

    /// One view fewer.
    pub open spec fn disconnect(self) -> Self {
        Model { live: (self.live - 1) as nat, ..self }
    }

    /// Chained behind `chain`.
    pub open spec fn link(self, chain: Seq<Seq<T>>) -> Self {
        Model { chained: chain, ..self }
    }

    /// This buffer's items, then those of the buffers chained behind it.
    pub open spec fn chain(self) -> Seq<Seq<T>> {
        seq![self.items] + self.chained
    }

    /// What one view's discard leaves of the core and of the trash stack,
    /// whose chain is `trash` when the view goes: while the other view
    /// lives, the core with one view fewer and the stack as it was; after the
    /// last view, no core, and on the stack the core's items in front of the
    /// chain that the stack held, or, where it held none, in front of what
    /// was chained behind the core already.
    pub open spec fn discard(self, trash: Seq<Seq<T>>) -> (Option<Self>, Seq<Seq<T>>) {
        if self.live > 1 {
            (Some(self.disconnect()), trash)
        } else if trash.len() > 0 {
            (None, seq![self.items] + trash)
        } else {
            (None, seq![self.items] + self.chained)
        }
    }

    /// Disposal: when both views of a buffer are discarded, the first
    /// discard leaves the trash stack alone, and the second puts the buffer
    /// on it once, with every item that was not read, in front of what the
    /// stack held.
    pub proof fn lemma_discard_both(self, trash: Seq<Seq<T>>)
        requires
            self.live == 2,
            self.chained.len() == 0,
        ensures
            self.discard(trash).0 is Some,
            self.discard(trash).1 == trash,
            self.discard(trash).0.unwrap().items == self.items,
            self.discard(trash).0.unwrap().discard(trash).0 is None,
            self.discard(trash).0.unwrap().discard(trash).1 == seq![self.items] + trash,
    {
        if trash.len() == 0 {
            assert(seq![self.items] + self.chained =~= seq![self.items] + trash);
        }
    }

    /// Every item leaves; the cursors meet where the write cursor stands.
    pub open spec fn drained(self) -> Self {
        Model { items: Seq::empty(), read_cursor: self.write_cursor, ..self }
    }
    /// The reader moves the `n` oldest items out of their slots.
    pub open spec fn take_n(self, n: nat) -> Self {
        Model { items: self.items.skip(n as int), taken: self.taken + n, ..self }
    }

    /// The writer stores `items`, in order, in the next free slots.
    pub open spec fn put_all(self, items: Seq<T>) -> Self {
        Model { items: self.items + items, filled: self.filled + items.len(), ..self }
    }

    /// The occupancy can be read off the two shared cursors.
    pub proof fn lemma_size_from_cursors(self)
        requires
            self.wf(),
        ensures
            0 <= self.size() <= self.capacity,
            self.size() == if self.write_cursor >= self.read_cursor {
                self.write_cursor - self.read_cursor
            } else {
                self.write_cursor - self.read_cursor + self.slots()
            },
    {
        let slots = self.slots() as int;
        let to = self.read_cursor + self.size();
        if to < slots {
            lemma_phys_small(to, slots);
        } else {
            lemma_phys_period(to - slots, slots);
            lemma_phys_small(to - slots, slots);
        }
    }
}

/// One move of one of the two owners.
pub enum Step<T> {
    /// The writer tries to store an item in a free slot.
    Put(T),
    /// The reader tries to move the oldest published item out.
    Take,
    /// The writer publishes what it has stored.
    Publish,
    /// The reader releases what it has emptied.
    Release,
}

impl<T> Model<T> {
    /// The state after one move. A `Put` with no free slot and a `Take` with
    /// nothing published leave the state as it is.
    pub open spec fn step(self, step: Step<T>) -> Self {
        match step {
            Step::Put(item) => if self.writable() > 0 {
                self.put(item)
            } else {
                self
            },
            Step::Take => if self.readable() > 0 {
                self.take()
            } else {
                self
            },
            Step::Publish => self.publish(),
            Step::Release => self.release(),
        }
    }

    /// The state after the moves of `steps`, in order.
    pub open spec fn run(self, steps: Seq<Step<T>>) -> Self
        decreases steps.len(),
    {
        if steps.len() == 0 {
            self
        } else {
            self.run(steps.drop_last()).step(steps.last())
        }
    }

    /// The items that the moves of `steps` stored, in order.
    pub open spec fn stored(self, steps: Seq<Step<T>>) -> Seq<T>
        decreases steps.len(),
    {
        if steps.len() == 0 {
            Seq::empty()
        } else {
            let before = self.run(steps.drop_last());
            let earlier = self.stored(steps.drop_last());
            match steps.last() {
                Step::Put(item) => if before.writable() > 0 {
                    earlier.push(item)
                } else {
                    earlier
                },
                _ => earlier,
            }
        }
    }

    /// The items that the moves of `steps` moved out, in order.
    pub open spec fn removed(self, steps: Seq<Step<T>>) -> Seq<T>
        decreases steps.len(),
    {
        if steps.len() == 0 {
            Seq::empty()
        } else {
            let before = self.run(steps.drop_last());
            let earlier = self.removed(steps.drop_last());
            match steps.last() {
                Step::Take => if before.readable() > 0 {
                    earlier.push(before.items[0])
                } else {
                    earlier
                },
                _ => earlier,
            }
        }
    }

    /// Every move keeps a well-formed state well-formed, and changes neither
    /// the capacity nor the number of live views.
    pub proof fn lemma_step_wf(self, step: Step<T>)
        requires
            self.wf(),
        ensures
            self.step(step).wf(),
            self.step(step).capacity == self.capacity,
            self.step(step).live == self.live,
    {
        let slots = self.slots() as int;
        match step {
            Step::Publish => {
                lemma_phys_range((self.write_cursor + self.filled) as int, slots);
                lemma_phys_step(self.read_cursor + self.size(), self.filled as int, slots);
            },
            Step::Release => {
                lemma_phys_range((self.read_cursor + self.taken) as int, slots);
                lemma_phys_step(
                    self.read_cursor as int + self.taken,
                    self.size() - self.taken,
                    slots,
                );
            },
            _ => {},
        }
    }

    /// Capacity bound: whatever the two owners do, in whatever order, the
    /// state stays well-formed. So the buffer never holds more than
    /// `capacity` items, and the occupancy that the cursors show never
    /// exceeds `capacity`.
    pub proof fn lemma_capacity_bound(self, steps: Seq<Step<T>>)
        requires
            self.wf(),
        ensures
            self.run(steps).wf(),
            self.run(steps).capacity == self.capacity,
            self.run(steps).items.len() <= self.capacity,
            0 <= self.run(steps).size() <= self.capacity,
        decreases steps.len(),
    {
        if steps.len() > 0 {
            self.lemma_capacity_bound(steps.drop_last());
            self.run(steps.drop_last()).lemma_step_wf(steps.last());
        }
    }

    /// Conservation: what is occupied and what is free add up to the
    /// capacity, and neither is negative.
    pub proof fn lemma_conservation(self)
        requires
            self.wf(),
        ensures
            self.size() + self.available() == self.capacity,
            0 <= self.size(),
            0 <= self.available(),
    {
    }

    /// First in, first out: whatever the two owners do, in whatever order,
    /// the items moved out, followed by the items still stored, are the items
    /// stored at the start followed by the items stored since.
    pub proof fn lemma_fifo(self, steps: Seq<Step<T>>)
        ensures
            self.removed(steps) + self.run(steps).items == self.items + self.stored(steps),
        decreases steps.len(),
    {
        if steps.len() == 0 {
            assert(self.removed(steps) + self.run(steps).items =~= self.items + self.stored(steps));
        } else {
            let front = steps.drop_last();
            self.lemma_fifo(front);
            let before = self.run(front);
            assert(self.removed(front) + before.items == self.items + self.stored(front));
            match steps.last() {
                Step::Put(item) => {
                    if before.writable() > 0 {
                        assert(self.removed(steps) + self.run(steps).items =~= (self.removed(front)
                            + before.items).push(item));
                        assert(self.items + self.stored(steps) =~= (self.items + self.stored(
                            front,
                        )).push(item));
                    }
                },
                Step::Take => {
                    if before.readable() > 0 {
                        assert(self.removed(steps) + self.run(steps).items =~= self.removed(front)
                            + before.items);
                    }
                },
                _ => {},
            }
        }
    }

    /// From an empty buffer on, the items moved out so far are, in order, the
    /// first of the items stored so far.
    pub proof fn lemma_fifo_prefix(self, steps: Seq<Step<T>>)
        requires
            self.items.len() == 0,
        ensures
            self.removed(steps).len() <= self.stored(steps).len(),
            self.removed(steps) == self.stored(steps).take(self.removed(steps).len() as int),
    {
        self.lemma_fifo(steps);
        let out = self.removed(steps);
        let all = self.stored(steps);
        assert(self.items + all =~= all);
        assert((out + self.run(steps).items).len() == all.len());
        assert(out =~= (out + self.run(steps).items).take(out.len() as int));
    }
}

/// The moves of a writer that pushes `items` one by one.
pub open spec fn pushes<T>(items: Seq<T>) -> Seq<Step<T>>
    decreases items.len(),
{
    if items.len() == 0 {
        Seq::empty()
    } else {
        pushes(items.drop_last()).push(Step::Put(items.last())).push(Step::Publish)
    }
}

/// The moves of a reader that pops `n` times.
pub open spec fn pops<T>(n: nat) -> Seq<Step<T>>
    decreases n,
{
    if n == 0 {
        Seq::empty()
    } else {
        pops::<T>((n - 1) as nat).push(Step::Take).push(Step::Release)
    }
}

/// Running two stretches of moves one after the other is running them as one.
pub proof fn lemma_run_concat<T>(start: Model<T>, first: Seq<Step<T>>, second: Seq<Step<T>>)
    ensures
        start.run(first + second) == start.run(first).run(second),
        start.stored(first + second) == start.stored(first) + start.run(first).stored(second),
        start.removed(first + second) == start.removed(first) + start.run(first).removed(second),
    decreases second.len(),
{
    let mid = start.run(first);
    if second.len() == 0 {
        assert(first + second =~= first);
        assert(start.stored(first) + mid.stored(second) =~= start.stored(first));
        assert(start.removed(first) + mid.removed(second) =~= start.removed(first));
    } else {
        let whole = first + second;
        assert(whole.drop_last() =~= first + second.drop_last());
        assert(whole.last() == second.last());
        lemma_run_concat(start, first, second.drop_last());
        let before = mid.run(second.drop_last());
        match second.last() {
            Step::Put(item) => {
                if before.writable() > 0 {
                    assert(start.stored(whole) =~= start.stored(first) + mid.stored(second));
                }
            },
            Step::Take => {
                if before.readable() > 0 {
                    assert(start.removed(whole) =~= start.removed(first) + mid.removed(second));
                }
            },
            _ => {},
        }
    }
}

/// Pushing items that fit stores them all, behind what was there, and leaves
/// the writer with nothing unpublished.
pub proof fn lemma_pushes<T>(start: Model<T>, items: Seq<T>)
    requires
        start.wf(),
        start.filled == 0,
        items.len() <= start.writable(),
    ensures
        start.run(pushes(items)).items == start.items + items,
        start.run(pushes(items)).filled == 0,
        start.run(pushes(items)).taken == start.taken,
        start.run(pushes(items)).capacity == start.capacity,
        start.stored(pushes(items)) == items,
        start.removed(pushes(items)) == Seq::<T>::empty(),
    decreases items.len(),
{
    if items.len() == 0 {
        assert(start.items + items =~= start.items);
        assert(start.stored(pushes(items)) =~= items);
    } else {
        let front = items.drop_last();
        lemma_pushes(start, front);
        let steps = pushes(items);
        let put = pushes(front).push(Step::Put(items.last()));
        assert(steps.drop_last() =~= put);
        assert(put.drop_last() =~= pushes(front));
        let before = start.run(pushes(front));
        assert(before.writable() > 0);
        assert(put.last() == Step::Put(items.last()));
        assert(start.run(put) == before.put(items.last()));
        assert(start.stored(put) == front.push(items.last()));
        assert(start.removed(put) == start.removed(pushes(front)));
        assert(steps.last() == Step::<T>::Publish);
        assert(start.run(steps) == before.put(items.last()).publish());
        assert(start.run(steps).items =~= start.items + items);
        assert(start.stored(steps) =~= items);
    }
}

/// Popping no more often than items are published moves out the oldest
/// items, in order, and leaves the reader with nothing unreleased.
pub proof fn lemma_pops<T>(start: Model<T>, n: nat)
    requires
        start.wf(),
        start.taken == 0,
        n <= start.readable(),
    ensures
        start.run(pops::<T>(n)).items == start.items.skip(n as int),
        start.run(pops::<T>(n)).taken == 0,
        start.run(pops::<T>(n)).filled == start.filled,
        start.run(pops::<T>(n)).capacity == start.capacity,
        start.removed(pops::<T>(n)) == start.items.take(n as int),
        start.stored(pops::<T>(n)) == Seq::<T>::empty(),
    decreases n,
{
    if n == 0 {
        assert(start.items.skip(0) =~= start.items);
        assert(start.removed(pops::<T>(n)) =~= start.items.take(0));
    } else {
        let fewer = (n - 1) as nat;
        lemma_pops(start, fewer);
        let steps = pops::<T>(n);
        let take = pops::<T>(fewer).push(Step::Take);
        assert(steps.drop_last() =~= take);
        assert(take.drop_last() =~= pops::<T>(fewer));
        let before = start.run(pops::<T>(fewer));
        assert(before.readable() > 0);
        assert(before.items[0] == start.items[n - 1]);
        assert(take.last() == Step::<T>::Take);
        assert(start.run(take) == before.take());
        assert(start.removed(take) == start.items.take(fewer as int).push(before.items[0]));
        assert(start.stored(take) == start.stored(pops::<T>(fewer)));
        assert(steps.last() == Step::<T>::Release);
        assert(start.run(steps) == before.take().release());
        assert(start.run(steps).items =~= start.items.skip(n as int));
        assert(start.removed(steps) =~= start.items.take(n as int));
    }
}

/// Round trip: pushing items that fit into an empty buffer and then popping
/// as many times gives back exactly those items, in the order they went in,
/// and leaves the buffer empty.
pub proof fn lemma_round_trip<T>(start: Model<T>, items: Seq<T>)
    requires
        start.wf(),
        start.quiescent(),
        start.items.len() == 0,
        items.len() <= start.capacity,
    ensures
        start.removed(pushes(items) + pops::<T>(items.len())) == items,
        start.run(pushes(items) + pops::<T>(items.len())).items.len() == 0,
{
    let n = items.len();
    lemma_pushes(start, items);
    let full = start.run(pushes(items));
    start.lemma_capacity_bound(pushes(items));
    assert(start.items + items =~= items);
    lemma_pops(full, n);
    lemma_run_concat(start, pushes(items), pops::<T>(n));
    assert(items.take(n as int) =~= items);
    assert(Seq::<T>::empty() + items =~= items);
}

} // verus!
