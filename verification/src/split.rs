//! The split virtqueue: a descriptor table, an available ring and a used
//! ring, with the driver's bookkeeping and a model of the device.
//!
//! [`SplitState`] says what a queue holds, apart from where it lies in
//! memory. [`SplitQueue`] keeps the three tables as both sides see them and
//! is proved to follow that state.

use vstd::prelude::*;
use crate::barrier::memory_barrier;
use crate::error::Error;
use crate::event::EventControl;
use crate::ring::{index_of, is_split_size, slot_of, check_split_size, mask_slot, lemma_index_slot, lemma_lap_slot, lemma_slots_differ, lemma_distinct_slots};
use crate::event::index_distance;
use crate::RingEventFlags;
use crate::virtq::{avail_bytes, avail_layout, table_bytes, table_layout, used_bytes, used_layout, MAX_CHAIN, Buffer, Desc, DescF, UsedElem, buffer_of, buffers_of, chain_at, desc_for, descs_at, indirect_chain, linked, resolve, lemma_chain_nonempty, lemma_linked_chain, read_indirect, resolve_chain};

verus! {

/// What a split virtqueue holds.
///
/// A chain is known by its head, the descriptor slot that it starts in.
/// From the moment it is published it is first pending, then taken by the
/// device, then completed, then returned to the driver, and at last freed.
pub struct SplitState {
    /// The number of slots of each of the three tables.
    pub size: nat,
    /// The number of descriptor slots that no chain occupies.
    pub num_free: nat,
    /// The chains that occupy descriptor slots, by head.
    pub chains: Map<u16, Seq<Buffer>>,
    /// The number of descriptor slots that each of those chains occupies.
    pub slots: Map<u16, nat>,
    /// The heads that the driver has published and the device has not yet
    /// taken, oldest first.
    pub pending: Seq<u16>,
    /// The heads that the device has taken and not yet completed.
    pub taken: Seq<u16>,
    /// The completions that the device has written and the driver has not
    /// yet polled, oldest first.
    pub completed: Seq<UsedElem>,
    /// The heads whose completion the driver has polled and whose
    /// descriptor slots it has not yet freed.
    pub returned: Seq<u16>,
    /// How many chains the driver has published so far.
    pub published: nat,
    /// How many chains the device has taken so far.
    pub consumed: nat,
    /// How many completions the device has written so far.
    pub used: nat,
    /// How many completions the driver has polled so far.
    pub polled: nat,
}

impl SplitState {
    /// The state of a new queue of `size` slots.
    pub open spec fn init(size: nat) -> SplitState {
        SplitState {
            size,
            num_free: size,
            chains: Map::empty(),
            slots: Map::empty(),
            pending: Seq::empty(),
            taken: Seq::empty(),
            completed: Seq::empty(),
            returned: Seq::empty(),
            published: 0,
            consumed: 0,
            used: 0,
            polled: 0,
        }
    }

    /// The index that the driver shows in the available ring.
    pub open spec fn avail_idx(self) -> u16 {
        index_of(self.published)
    }

    /// The index that the device shows in the used ring.
    pub open spec fn used_idx(self) -> u16 {
        index_of(self.used)
    }

    /// The driver's cursor into the used ring.
    pub open spec fn last_used_idx(self) -> u16 {
        index_of(self.polled)
    }

    /// The heads of the completions that wait to be polled.
    pub open spec fn completed_heads(self) -> Seq<u16> {
        Seq::new(self.completed.len(), |i: int| self.completed[i].id as u16)
    }

    /// What holds of the state of every queue.
    pub open spec fn valid(self) -> bool {
        &&& is_split_size(self.size)
        &&& self.num_free <= self.size
        &&& self.pending.no_duplicates()
        &&& self.taken.no_duplicates()
        &&& self.completed_heads().no_duplicates()
        &&& self.returned.no_duplicates()
        &&& self.pending.len() <= self.size
        &&& self.completed.len() <= self.size
        &&& self.published == self.consumed + self.pending.len()
        &&& self.consumed == self.used + self.taken.len()
        &&& self.used == self.polled + self.completed.len()
        &&& forall|h: u16| self.chains.dom().contains(h) <==> self.slots.dom().contains(h)
        &&& forall|h: u16| #[trigger]
            self.chains.dom().contains(h) ==> (h as nat) < self.size && self.chains[h].len() >= 1
                && 1 <= self.slots[h] <= self.size
        &&& forall|i: int|
            0 <= i < self.pending.len() ==> self.chains.dom().contains(#[trigger] self.pending[i])
        &&& forall|i: int|
            0 <= i < self.taken.len() ==> self.chains.dom().contains(#[trigger] self.taken[i])
        &&& forall|i: int|
            0 <= i < self.returned.len() ==> self.chains.dom().contains(
                #[trigger] self.returned[i],
            )
        &&& forall|i: int|
            0 <= i < self.completed.len() ==> (#[trigger] self.completed[i]).id < self.size
                && self.chains.dom().contains(self.completed[i].id as u16)
    }

    /// Why a chain of `n` descriptors cannot be added, if it cannot: it
    /// is empty or longer than the queue, or more slots are asked for than
    /// are free.
    pub open spec fn add_refusal(self, n: nat) -> Option<Error> {
        if n == 0 || n > self.size {
            Some(Error::MalformedChain)
        } else if n > self.num_free {
            Some(Error::QueueFull)
        } else {
            None
        }
    }

    /// Why the side table `table` cannot be added as an indirect chain, if it
    /// cannot: indirect descriptors were not negotiated; the table is longer
    /// than `MAX_CHAIN`, holds a descriptor that is marked indirect in turn,
    /// or holds no chain; or no slot is free. The table may be longer than
    /// the queue.
    pub open spec fn add_indirect_refusal(self, negotiated: bool, table: Seq<Desc>) -> Option<
        Error,
    > {
        if !negotiated {
            Some(Error::UnsupportedFeature)
        } else if table.len() > MAX_CHAIN || indirect_chain(table) is None {
            Some(Error::MalformedChain)
        } else if self.num_free == 0 {
            Some(Error::QueueFull)
        } else {
            None
        }
    }

    /// The state after the driver has published `chain` under `head`, in `n`
    /// descriptor slots.
    pub open spec fn add(self, head: u16, chain: Seq<Buffer>, n: nat) -> SplitState {
        SplitState {
            num_free: (self.num_free - n) as nat,
            chains: self.chains.insert(head, chain),
            slots: self.slots.insert(head, n),
            pending: self.pending.push(head),
            published: self.published + 1,
            ..self
        }
    }

    /// The state after the device has taken the oldest pending chain.
    pub open spec fn take(self) -> SplitState
        recommends
            self.pending.len() > 0,
    {
        SplitState {
            pending: self.pending.drop_first(),
            taken: self.taken.push(self.pending[0]),
            consumed: self.consumed + 1,
            ..self
        }
    }

    /// The state after the device has completed the chain of `head`, with
    /// `len` bytes written.
    pub open spec fn complete(self, head: u16, len: u32) -> SplitState
        recommends
            self.taken.contains(head),
    {
        SplitState {
            taken: self.taken.remove(self.taken.index_of(head)),
            completed: self.completed.push(UsedElem { id: head as u32, len }),
            used: self.used + 1,
            ..self
        }
    }

    /// The state after the driver has polled the oldest completion.
    pub open spec fn poll(self) -> SplitState
        recommends
            self.completed.len() > 0,
    {
        SplitState {
            completed: self.completed.drop_first(),
            returned: self.returned.push(self.completed[0].id as u16),
            polled: self.polled + 1,
            ..self
        }
    }

    /// The state after the driver has freed the descriptor slots of the
    /// returned chain of `head`.
    pub open spec fn free(self, head: u16) -> SplitState
        recommends
            self.returned.contains(head),
    {
        SplitState {
            num_free: self.num_free + self.slots[head],
            chains: self.chains.remove(head),
            slots: self.slots.remove(head),
            returned: self.returned.remove(self.returned.index_of(head)),
            ..self
        }
    }
}

impl SplitState {
    /// The state after the driver has published the chains `chains` under
    /// the heads `heads`, one after the other.
    pub open spec fn add_each(self, heads: Seq<u16>, chains: Seq<Seq<Buffer>>) -> SplitState
        recommends
            heads.len() == chains.len(),
        decreases heads.len(),
    {
        if heads.len() == 0 {
            self
        } else {
            self.add_each(heads.drop_last(), chains.drop_last()).add(
                heads.last(),
                chains.last(),
                chains.last().len(),
            )
        }
    }

    /// The state after the device has taken and completed the chains of
    /// `heads`, one after the other, with the lengths `lens`.
    pub open spec fn serve_each(self, heads: Seq<u16>, lens: Seq<u32>) -> SplitState
        recommends
            heads.len() == lens.len(),
        decreases heads.len(),
    {
        if heads.len() == 0 {
            self
        } else {
            self.serve_each(heads.drop_last(), lens.drop_last()).take().complete(
                heads.last(),
                lens.last(),
            )
        }
    }

    /// The state after the driver has polled `n` completions.
    pub open spec fn poll_each(self, n: nat) -> SplitState
        decreases n,
    {
        if n == 0 {
            self
        } else {
            self.poll_each((n - 1) as nat).poll()
        }
    }

    /// A chain that is added to a queue in which nothing waits is the one
    /// that the device takes next, and once the device has completed it,
    /// the driver polls exactly one completion, which names the head of the
    /// chain and the length that the device gave.
    pub proof fn lemma_round_trip(self, head: u16, chain: Seq<Buffer>, len: u32)
        requires
            self.pending.len() == 0,
            self.completed.len() == 0,
        ensures
            ({
                let added = self.add(head, chain, chain.len());
                let taken = added.take();
                let done = taken.complete(head, len);
                let polled = done.poll();
                &&& added.pending == seq![head]
                &&& added.chains[head] == chain
                &&& taken.pending.len() == 0
                &&& taken.taken.last() == head
                &&& taken.chains[head] == chain
                &&& done.completed == seq![UsedElem { id: head as u32, len }]
                &&& done.completed[0].id == head
                &&& polled.completed.len() == 0
                &&& polled.returned.last() == head
            }),
    {
        let added = self.add(head, chain, chain.len());
        assert(added.pending =~= seq![head]);
        let taken = added.take();
        assert(taken.pending =~= Seq::empty());
        let done = taken.complete(head, len);
        assert(done.completed =~= seq![UsedElem { id: head as u32, len }]);
        let polled = done.poll();
        assert(polled.completed =~= Seq::empty());
    }

    /// Adding chains moves the index of the available ring on by their
    /// number.
    pub proof fn lemma_add_each(self, heads: Seq<u16>, chains: Seq<Seq<Buffer>>)
        ensures
            self.add_each(heads, chains).published == self.published + heads.len(),
            self.add_each(heads, chains).consumed == self.consumed,
            self.add_each(heads, chains).used == self.used,
            self.add_each(heads, chains).polled == self.polled,
            self.add_each(heads, chains).size == self.size,
        decreases heads.len(),
    {
        if heads.len() > 0 {
            self.lemma_add_each(heads.drop_last(), chains.drop_last());
        }
    }

    /// Taking and completing chains moves the index of the used ring on by
    /// their number.
    pub proof fn lemma_serve_each(self, heads: Seq<u16>, lens: Seq<u32>)
        ensures
            self.serve_each(heads, lens).published == self.published,
            self.serve_each(heads, lens).consumed == self.consumed + heads.len(),
            self.serve_each(heads, lens).used == self.used + heads.len(),
            self.serve_each(heads, lens).polled == self.polled,
            self.serve_each(heads, lens).size == self.size,
        decreases heads.len(),
    {
        if heads.len() > 0 {
            self.lemma_serve_each(heads.drop_last(), lens.drop_last());
        }
    }

    /// Polling completions moves the driver's cursor on by their number.
    pub proof fn lemma_poll_each(self, n: nat)
        ensures
            self.poll_each(n).published == self.published,
            self.poll_each(n).consumed == self.consumed,
            self.poll_each(n).used == self.used,
            self.poll_each(n).polled == self.polled + n,
            self.poll_each(n).size == self.size,
        decreases n,
    {
        if n > 0 {
            self.lemma_poll_each((n - 1) as nat);
        }
    }

    /// In a queue in which nothing is pending, taken or waiting to be
    /// polled, the indices of both rings and both cursors are equal.
    pub proof fn lemma_drained(self)
        requires
            self.valid(),
            self.pending.len() == 0,
            self.taken.len() == 0,
            self.completed.len() == 0,
        ensures
            self.published == self.polled,
            self.avail_idx() == self.used_idx(),
            self.used_idx() == self.last_used_idx(),
    {
    }

    /// The heads that wait in the available ring lie in different slots of
    /// it, and the completions that wait in the used ring in different slots
    /// of that: what is published a lap later falls on the slot of what was
    /// published a lap before, and never while that still waits.
    pub proof fn lemma_no_alias(self, i: int, j: int)
        requires
            self.valid(),
            0 <= i < j,
        ensures
            j < self.pending.len() ==> slot_of((self.consumed + i) as nat, self.size) != slot_of(
                (self.consumed + j) as nat,
                self.size,
            ),
            j < self.completed.len() ==> slot_of((self.polled + i) as nat, self.size) != slot_of(
                (self.polled + j) as nat,
                self.size,
            ),
            slot_of((self.published + self.size) as nat, self.size) == slot_of(
                self.published,
                self.size,
            ),
            index_of(self.published) as nat % self.size == slot_of(self.published, self.size),
    {
        if j < self.pending.len() {
            lemma_slots_differ((self.consumed + i) as nat, (self.consumed + j) as nat, self.size);
        }
        if j < self.completed.len() {
            lemma_slots_differ((self.polled + i) as nat, (self.polled + j) as nat, self.size);
        }
        lemma_lap_slot(self.published, self.size);
        lemma_index_slot(self.published, self.size);
    }

    /// Once the slots of a returned chain are freed, a chain of as many
    /// descriptors as it had can be added.
    pub proof fn lemma_free_makes_room(self, head: u16)
        requires
            self.valid(),
            self.returned.contains(head),
        ensures
            self.free(head).num_free == self.num_free + self.slots[head],
            self.free(head).add_refusal(self.slots[head]) is None,
    {
        let k = choose|k: int| 0 <= k < self.returned.len() && self.returned[k] == head;
        assert(self.chains.dom().contains(self.returned[k]));
    }
}

/// The spans of memory of each of the chains `chains`.
pub open spec fn spans(chains: Seq<Vec<Buffer>>) -> Seq<Seq<Buffer>> {
    Seq::new(chains.len(), |i: int| chains[i]@)
}

/// The number of descriptors of the chains `chains` together.
pub open spec fn total_len(chains: Seq<Seq<Buffer>>) -> nat
    decreases chains.len(),
{
    if chains.len() == 0 {
        0
    } else {
        total_len(chains.drop_last()) + chains.last().len()
    }
}

/// The completions of the chains of `heads`, with the lengths `lens`.
pub open spec fn completions(heads: Seq<u16>, lens: Seq<u32>) -> Seq<UsedElem> {
    Seq::new(heads.len(), |i: int| UsedElem { id: heads[i] as u32, len: lens[i] })
}

/// The first chains of a list have no more descriptors than all of them.
pub proof fn lemma_total_len_prefix(chains: Seq<Seq<Buffer>>, n: int)
    requires
        0 <= n <= chains.len(),
    ensures
        total_len(chains.subrange(0, n)) <= total_len(chains),
    decreases chains.len(),
{
    if n == chains.len() {
        assert(chains.subrange(0, n) =~= chains);
    } else {
        lemma_total_len_prefix(chains.drop_last(), n);
        assert(chains.drop_last().subrange(0, n) =~= chains.subrange(0, n));
    }
}

impl SplitState {
    /// Why the chains `chains` cannot be added together, if they cannot:
    /// one of them is empty or longer than the queue, or together they ask
    /// for more slots than are free.
    pub open spec fn add_each_refusal(self, chains: Seq<Seq<Buffer>>) -> Option<Error> {
        if exists|i: int|
            0 <= i < chains.len() && ((#[trigger] chains[i]).len() == 0 || chains[i].len()
                > self.size) {
            Some(Error::MalformedChain)
        } else if total_len(chains) > self.num_free {
            Some(Error::QueueFull)
        } else {
            None
        }
    }

    /// Chains that are added wait in the available ring behind those that
    /// waited there, in the order in which they were added, and take as many
    /// free slots as they have descriptors.
    pub proof fn lemma_add_each_pending(self, heads: Seq<u16>, chains: Seq<Seq<Buffer>>)
        requires
            heads.len() == chains.len(),
            total_len(chains) <= self.num_free,
        ensures
            self.add_each(heads, chains).pending == self.pending + heads,
            self.add_each(heads, chains).num_free == self.num_free - total_len(chains),
            self.add_each(heads, chains).completed == self.completed,
        decreases heads.len(),
    {
        if heads.len() > 0 {
            self.lemma_add_each_pending(heads.drop_last(), chains.drop_last());
            assert(self.pending + heads =~= (self.pending + heads.drop_last()).push(heads.last()));
        } else {
            assert(self.pending + heads =~= self.pending);
        }
    }

    /// Chains that the device takes and completes in the order in which
    /// they wait are reported in that order, behind the completions that
    /// waited already, and wait no longer in the available ring.
    pub proof fn lemma_serve_each_completed(self, heads: Seq<u16>, lens: Seq<u32>)
        requires
            heads.len() == lens.len(),
            heads.len() <= self.pending.len(),
        ensures
            self.serve_each(heads, lens).completed == self.completed + completions(heads, lens),
            self.serve_each(heads, lens).pending == self.pending.subrange(
                heads.len() as int,
                self.pending.len() as int,
            ),
        decreases heads.len(),
    {
        if heads.len() > 0 {
            let before = self.serve_each(heads.drop_last(), lens.drop_last());
            self.lemma_serve_each_completed(heads.drop_last(), lens.drop_last());
            assert(self.completed + completions(heads, lens) =~= (self.completed + completions(
                heads.drop_last(),
                lens.drop_last(),
            )).push(UsedElem { id: heads.last() as u32, len: lens.last() }));
            assert(before.take().pending =~= self.pending.subrange(
                heads.len() as int,
                self.pending.len() as int,
            ));
        } else {
            assert(self.completed + completions(heads, lens) =~= self.completed);
            assert(self.pending.subrange(0, self.pending.len() as int) =~= self.pending);
        }
    }

    /// Polling takes the completions that wait, oldest first.
    pub proof fn lemma_poll_each_completed(self, n: nat)
        requires
            n <= self.completed.len(),
        ensures
            self.poll_each(n).completed == self.completed.subrange(
                n as int,
                self.completed.len() as int,
            ),
        decreases n,
    {
        if n > 0 {
            self.lemma_poll_each_completed((n - 1) as nat);
            assert(self.poll_each((n - 1) as nat).poll().completed =~= self.completed.subrange(
                n as int,
                self.completed.len() as int,
            ));
        } else {
            assert(self.completed.subrange(0, self.completed.len() as int) =~= self.completed);
        }
    }

    /// A run in order: chains are added to a new queue, the device takes
    /// and completes them in the order in which they were added, and the
    /// driver polls as often as chains were added. The device is offered
    /// the heads in the order of adding, the driver is reported them in the
    /// same order, each with its length, nothing waits afterwards, so that
    /// one more poll finds nothing, and the index of the used ring and the
    /// driver's cursor are both the number of the chains.
    pub proof fn lemma_run_in_order(
        size: nat,
        heads: Seq<u16>,
        chains: Seq<Seq<Buffer>>,
        lens: Seq<u32>,
    )
        requires
            is_split_size(size),
            heads.len() == chains.len(),
            heads.len() == lens.len(),
            total_len(chains) <= size,
        ensures
            ({
                let added = Self::init(size).add_each(heads, chains);
                let served = added.serve_each(heads, lens);
                let end = served.poll_each(heads.len());
                &&& added.pending == heads
                &&& served.pending.len() == 0
                &&& served.completed == completions(heads, lens)
                &&& forall|i: int|
                    0 <= i < heads.len() ==> (#[trigger] served.completed[i]).id == heads[i]
                        && served.completed[i].len == lens[i]
                &&& end.completed.len() == 0
                &&& end.pending.len() == 0
                &&& end.used_idx() == end.last_used_idx()
                &&& end.used_idx() == index_of(heads.len())
                &&& end.avail_idx() == index_of(heads.len())
                &&& end.used_idx() as nat % size == slot_of(heads.len(), size)
            }),
    {
        let start = Self::init(size);
        let added = start.add_each(heads, chains);
        start.lemma_add_each(heads, chains);
        start.lemma_add_each_pending(heads, chains);
        assert(start.pending + heads =~= heads);
        let served = added.serve_each(heads, lens);
        added.lemma_serve_each(heads, lens);
        added.lemma_serve_each_completed(heads, lens);
        assert(added.completed + completions(heads, lens) =~= completions(heads, lens));
        served.lemma_poll_each(heads.len());
        served.lemma_poll_each_completed(heads.len());
        let end = served.poll_each(heads.len());
        assert(end.pending == served.pending) by {
            Self::lemma_poll_each_pending(served, heads.len());
        }
        lemma_index_slot(heads.len(), size);
    }

    /// Polling leaves what is pending as it is.
    pub proof fn lemma_poll_each_pending(s: SplitState, n: nat)
        ensures
            s.poll_each(n).pending == s.pending,
        decreases n,
    {
        if n > 0 {
            Self::lemma_poll_each_pending(s, (n - 1) as nat);
        }
    }

    /// A full lap: once as many chains of one descriptor each were added to
    /// a new queue as it has slots, no slot is free and one more chain is
    /// refused as long as all of them are in flight. Each of them lies in a
    /// slot of its own of the available ring, and the next chain that is
    /// added, once one of them is through, falls on slot 0 again, with the
    /// index of the ring one more than the size.
    pub proof fn lemma_run_full_lap(size: nat, heads: Seq<u16>, chains: Seq<Seq<Buffer>>)
        requires
            is_split_size(size),
            heads.len() == size,
            chains.len() == size,
            forall|i: int| 0 <= i < chains.len() ==> (#[trigger] chains[i]).len() == 1,
        ensures
            ({
                let full = Self::init(size).add_each(heads, chains);
                &&& full.pending == heads
                &&& full.published == size
                &&& full.num_free == 0
                &&& full.add_refusal(1) == Some(Error::QueueFull)
                &&& forall|i: nat| i < size ==> #[trigger] slot_of(i, size) == i
                &&& slot_of(full.published, size) == 0
                &&& index_of(full.published + 1) == size + 1
            }),
    {
        let start = Self::init(size);
        Self::lemma_total_singles(chains);
        start.lemma_add_each(heads, chains);
        start.lemma_add_each_pending(heads, chains);
        assert(start.pending + heads =~= heads);
        crate::ring::lemma_first_lap(size);
    }

    /// Chains of one descriptor each have as many descriptors as they are.
    pub proof fn lemma_total_singles(chains: Seq<Seq<Buffer>>)
        requires
            forall|i: int| 0 <= i < chains.len() ==> (#[trigger] chains[i]).len() == 1,
        ensures
            total_len(chains) == chains.len(),
        decreases chains.len(),
    {
        if chains.len() > 0 {
            assert forall|i: int| 0 <= i < chains.drop_last().len() implies (
            #[trigger] chains.drop_last()[i]).len() == 1 by {
                assert(chains.drop_last()[i] == chains[i]);
            }
            Self::lemma_total_singles(chains.drop_last());
            assert(chains.last() == chains[chains.len() - 1]);
        }
    }
}

/// A side table in which a descriptor is marked indirect in turn holds no
/// chain, whether the chain from its first descriptor reaches that
/// descriptor or not.
pub proof fn lemma_nested_indirect(side: Seq<Desc>, i: int)
    requires
        0 <= i < side.len(),
        side[i].flags.has_indirect(),
    ensures
        indirect_chain(side) is None,
{
}

/// Who holds a descriptor slot.
#[derive(Clone, Copy, Debug, PartialEq, Eq, Structural)]
pub enum Slot {
    /// No chain occupies the slot.
    Free,
    /// The slot holds a descriptor of a chain that is not its first.
    Link,
    /// The slot is the head of a chain that waits in the available ring.
    Pending,
    /// The slot is the head of a chain that the device works on.
    Taken,
    /// The slot is the head of a chain that waits in the used ring.
    Completed,
    /// The slot is the head of a chain that the driver has got back.
    Returned,
}

impl Slot {
    /// Whether the slot is the head of a chain.
    pub open spec fn is_head(self) -> bool {
        self == Slot::Pending || self == Slot::Taken || self == Slot::Completed || self
            == Slot::Returned
    }
}

/// The slot that follows slot `i` of a chain in `slots`, if one does.
pub open spec fn next_slot(slots: Seq<u16>, i: int) -> Option<u16> {
    if i + 1 < slots.len() {
        Some(slots[i + 1])
    } else {
        None
    }
}

/// A split virtqueue of a negotiated size.
///
/// It holds the descriptor table, the available ring and the used ring as
/// they lie in the memory that driver and device share, the side tables of
/// indirect descriptors, the driver's pool of free descriptor slots and its
/// cursor into the used ring, and the device's cursor into the available
/// ring. The driver's operations write the descriptor table and the
/// available ring only; those of the device write the used ring only.
pub struct SplitQueue {
    size: u16,
    indirect: bool,
    desc: Vec<Desc>,
    side: Vec<Vec<Desc>>,
    avail_idx: u16,
    avail_ring: Vec<u16>,
    used_idx: u16,
    used_ring: Vec<UsedElem>,
    free: Vec<u16>,
    slot: Vec<Slot>,
    last_used_idx: u16,
    last_avail_idx: u16,
    state: Ghost<SplitState>,
    held: Ghost<Map<u16, Seq<u16>>>,
    owner: Ghost<Map<u16, (u16, int)>>,
}

impl SplitQueue {
    /// What the queue holds.
    pub closed spec fn view(&self) -> SplitState {
        self.state@
    }

    /// Whether indirect descriptors were negotiated.
    pub closed spec fn indirect_negotiated(&self) -> bool {
        self.indirect
    }

    /// The tables have the negotiated size, and a slot that is no head has
    /// no side table.
    spec fn wf_tables(&self) -> bool {
        &&& is_split_size(self.size as nat)
        &&& self.state@.size == self.size
        &&& self.desc@.len() == self.size
        &&& self.side@.len() == self.size
        &&& self.avail_ring@.len() == self.size
        &&& self.used_ring@.len() == self.size
        &&& self.slot@.len() == self.size
        &&& forall|h: int|
            0 <= h < self.size && !(#[trigger] self.slot@[h]).is_head() ==> self.side@[h]@.len()
                == 0
    }

    /// The pool holds distinct slots, all of them free, and as many as the
    /// state counts.
    spec fn wf_free(&self) -> bool {
        &&& self.state@.num_free == self.free@.len()
        &&& self.free@.no_duplicates()
        &&& forall|i: int|
            0 <= i < self.free@.len() ==> (#[trigger] self.free@[i]) < self.size
                && self.slot@[self.free@[i] as int] == Slot::Free
    }

    /// Whether `h` is a slot of the table that is the head of a chain.
    spec fn is_head_slot(&self, h: u16) -> bool {
        h < self.size && self.slot@[h as int].is_head()
    }

    /// The heads of the chains of the state are the slots that are marked as
    /// heads, and each chain lies in the table.
    spec fn wf_heads(&self) -> bool {
        &&& forall|h: u16|
            self.state@.chains.dom().contains(h) <==> self.state@.slots.dom().contains(h)
        &&& forall|h: u16| self.state@.chains.dom().contains(h) <==> self.held@.dom().contains(h)
        &&& forall|h: u16|
            #![trigger self.is_head_slot(h)]
            #![trigger self.state@.chains.dom().contains(h)]
            self.state@.chains.dom().contains(h) <==> self.is_head_slot(h)
        &&& forall|h: u16| self.state@.chains.dom().contains(h) ==> #[trigger] self.wf_chain(h)
    }

    /// The chain of head `h` occupies the slots that are recorded for it,
    /// which are its own, and they hold its descriptors, linked one to the
    /// next; or it occupies one slot, which points to the side table that
    /// holds it.
    spec fn wf_chain(&self, h: u16) -> bool {
        let sl = self.held@[h];
        let b = self.state@.chains[h];
        &&& sl.len() >= 1
        &&& sl[0] == h
        &&& b.len() >= 1
        &&& self.state@.slots[h] == sl.len()
        &&& forall|i: int|
            0 <= i < sl.len() ==> (#[trigger] sl[i]) < self.size && self.owner@.dom().contains(
                sl[i],
            ) && self.owner@[sl[i]] == (h, i) && (i > 0 ==> self.slot@[sl[i] as int] == Slot::Link)
        &&& if self.side@[h as int]@.len() == 0 {
            &&& sl.len() == b.len()
            &&& forall|i: int|
                0 <= i < sl.len() ==> self.desc@[(#[trigger] sl[i]) as int] == desc_for(
                    b[i],
                    next_slot(sl, i),
                )
        } else {
            &&& sl.len() == 1
            &&& self.desc@[h as int].flags == DescF::of(false, false, true)
            &&& indirect_chain(self.side@[h as int]@) == Some(b)
        }
    }

    /// The pending heads are distinct, marked as pending, and lie in the
    /// available ring from the device's cursor on.
    spec fn wf_pending(&self) -> bool {
        let s = self.state@;
        &&& s.pending.no_duplicates()
        &&& s.pending.len() <= self.size
        &&& forall|k: int|
            0 <= k < s.pending.len() ==> (#[trigger] s.pending[k]) < self.size
                && self.slot@[s.pending[k] as int] == Slot::Pending
        &&& forall|k: int|
            0 <= k < s.pending.len() ==> self.avail_ring@[slot_of(
                (s.consumed + k) as nat,
                self.size as nat,
            ) as int] == #[trigger] s.pending[k]
    }

    /// The heads that the device holds are distinct, and are the slots that
    /// are marked as taken.
    spec fn wf_taken(&self) -> bool {
        let s = self.state@;
        &&& s.taken.no_duplicates()
        &&& forall|k: int|
            0 <= k < s.taken.len() ==> (#[trigger] s.taken[k]) < self.size
                && self.slot@[s.taken[k] as int] == Slot::Taken
        &&& forall|h: u16|
            h < self.size && #[trigger] self.slot@[h as int] == Slot::Taken ==> s.taken.contains(h)
    }

    /// The completions that wait name distinct heads, marked as completed,
    /// and lie in the used ring from the driver's cursor on.
    spec fn wf_completed(&self) -> bool {
        let s = self.state@;
        &&& s.completed_heads().no_duplicates()
        &&& s.completed.len() <= self.size
        &&& forall|k: int|
            0 <= k < s.completed.len() ==> (#[trigger] s.completed[k]).id < self.size
                && self.slot@[s.completed[k].id as int] == Slot::Completed
        &&& forall|k: int|
            0 <= k < s.completed.len() ==> self.used_ring@[slot_of(
                (s.polled + k) as nat,
                self.size as nat,
            ) as int] == #[trigger] s.completed[k]
    }

    /// The heads that the driver has got back are distinct, and are the
    /// slots that are marked as returned.
    spec fn wf_returned(&self) -> bool {
        let s = self.state@;
        &&& s.returned.no_duplicates()
        &&& forall|k: int|
            0 <= k < s.returned.len() ==> (#[trigger] s.returned[k]) < self.size
                && self.slot@[s.returned[k] as int] == Slot::Returned
        &&& forall|h: u16|
            h < self.size && #[trigger] self.slot@[h as int] == Slot::Returned
                ==> s.returned.contains(h)
    }

    /// Both rings and both sets of heads are well.
    spec fn wf_rings(&self) -> bool {
        &&& self.wf_pending()
        &&& self.wf_taken()
        &&& self.wf_completed()
        &&& self.wf_returned()
    }

    /// The running counts differ by the numbers of chains in each step, and
    /// the indices and cursors are those of the counts.
    spec fn wf_counts(&self) -> bool {
        let s = self.state@;
        &&& s.published == s.consumed + s.pending.len()
        &&& s.consumed == s.used + s.taken.len()
        &&& s.used == s.polled + s.completed.len()
        &&& self.avail_idx == index_of(s.published)
        &&& self.last_avail_idx == index_of(s.consumed)
        &&& self.used_idx == index_of(s.used)
        &&& self.last_used_idx == index_of(s.polled)
    }

    /// What every operation keeps: the tables have the negotiated size, the
    /// free slots and the slots of the chains do not overlap, the chains lie
    /// in the descriptor table as the state says, and the rings between
    /// the cursors hold what is pending and what is completed.
    pub closed spec fn wf(&self) -> bool {
        &&& self.wf_tables()
        &&& self.wf_free()
        &&& self.wf_heads()
        &&& self.wf_rings()
        &&& self.wf_counts()
    }

    /// A queue that is kept well holds a valid state.
    pub proof fn lemma_valid(&self)
        requires
            self.wf(),
        ensures
            self@.valid(),
            self@.size == self.spec_size(),
    {
        let s = self.state@;
        lemma_distinct_slots(self.free@, self.size as nat);
        assert forall|h: u16| #[trigger]
            s.chains.dom().contains(h) implies (h as nat) < s.size && s.chains[h].len() >= 1 && 1
            <= s.slots[h] <= s.size by {
            assert(self.wf_chain(h));
            lemma_distinct_chain(self, h);
        }
        assert forall|i: int| 0 <= i < s.pending.len() implies s.chains.dom().contains(
            #[trigger] s.pending[i],
        ) by {
            assert(self.is_head_slot(s.pending[i]));
        }
        assert forall|i: int| 0 <= i < s.taken.len() implies s.chains.dom().contains(
            #[trigger] s.taken[i],
        ) by {
            assert(self.is_head_slot(s.taken[i]));
        }
        assert forall|i: int| 0 <= i < s.returned.len() implies s.chains.dom().contains(
            #[trigger] s.returned[i],
        ) by {
            assert(self.is_head_slot(s.returned[i]));
        }
        assert forall|i: int| 0 <= i < s.completed.len() implies (#[trigger] s.completed[i]).id
            < s.size && s.chains.dom().contains(s.completed[i].id as u16) by {
            assert(self.is_head_slot(s.completed[i].id as u16));
        }
    }

    /// The number of slots of each table.
    pub closed spec fn spec_size(&self) -> u16 {
        self.size
    }

    /// The number of slots of each table.
    #[verifier::when_used_as_spec(spec_size)]
    pub fn size(&self) -> (r: u16)
        ensures
            r == self.spec_size(),
    {
        self.size
    }

    /// A new queue of `size` slots, or nothing where `size` is not a power
    /// of two between 1 and 32768.
    pub fn new(size: u16, indirect: bool) -> (r: Option<SplitQueue>)
        ensures
            is_split_size(size as nat) <==> r is Some,
            r matches Some(q) ==> q.wf() && q@ == SplitState::init(size as nat) && q.spec_size()
                == size && q.indirect_negotiated() == indirect,
    {
        if !check_split_size(size) {
            return None;
        }
        let n = size as usize;
        let mut desc: Vec<Desc> = Vec::new();
        let mut side: Vec<Vec<Desc>> = Vec::new();
        let mut avail_ring: Vec<u16> = Vec::new();
        let mut used_ring: Vec<UsedElem> = Vec::new();
        let mut free: Vec<u16> = Vec::new();
        let mut slot: Vec<Slot> = Vec::new();
        let mut i: usize = 0;
        while i < n
            invariant
                i <= n,
                n == size,
                desc@.len() == i,
                side@.len() == i,
                avail_ring@.len() == i,
                used_ring@.len() == i,
                free@.len() == i,
                slot@.len() == i,
                forall|j: int| 0 <= j < i ==> #[trigger] free@[j] == n - 1 - j,
                forall|j: int| 0 <= j < i ==> #[trigger] slot@[j] == Slot::Free,
                forall|j: int| 0 <= j < i ==> (#[trigger] side@[j])@.len() == 0,
            decreases n - i,
        {
            desc.push(Desc { addr: 0, len: 0, flags: DescF { bits: 0 }, next: 0 });
            side.push(Vec::new());
            avail_ring.push(0);
            used_ring.push(UsedElem { id: 0, len: 0 });
            free.push((n - 1 - i) as u16);
            slot.push(Slot::Free);
            i = i + 1;
        }
        let q = SplitQueue {
            size,
            indirect,
            desc,
            side,
            avail_idx: 0,
            avail_ring,
            used_idx: 0,
            used_ring,
            free,
            slot,
            last_used_idx: 0,
            last_avail_idx: 0,
            state: Ghost(SplitState::init(size as nat)),
            held: Ghost(Map::empty()),
            owner: Ghost(Map::empty()),
        };
        assert(q.wf_free());
        assert(q.wf_heads());
        assert(q.wf_rings());
        Some(q)
    }
}

/// Takes the `n` slots off the end of the pool of free slots, last first.
fn take_slots(free: &mut Vec<u16>, n: usize) -> (r: Vec<u16>)
    requires
        n <= old(free)@.len(),
    ensures
        r@.len() == n,
        final(free)@ == old(free)@.subrange(0, old(free)@.len() - n),
        forall|i: int| 0 <= i < n ==> #[trigger] r@[i] == old(free)@[old(free)@.len() - 1 - i],
{
    let mut out: Vec<u16> = Vec::new();
    let mut i: usize = 0;
    while i < n
        invariant
            i <= n <= old(free)@.len(),
            out@.len() == i,
            free@ == old(free)@.subrange(0, old(free)@.len() - i),
            forall|j: int| 0 <= j < i ==> #[trigger] out@[j] == old(free)@[old(free)@.len() - 1 - j],
        decreases n - i,
    {
        let s = free.pop().unwrap();
        out.push(s);
        i = i + 1;
        assert(free@ =~= old(free)@.subrange(0, old(free)@.len() - i));
    }
    out
}

/// Writes the descriptors of `chain` into the slots `slots` of the
/// descriptor table, each continuing to the one after it.
fn write_chain(desc: &mut Vec<Desc>, slots: &Vec<u16>, chain: &[Buffer])
    requires
        slots@.len() == chain@.len(),
        slots@.no_duplicates(),
        forall|i: int| 0 <= i < slots@.len() ==> (#[trigger] slots@[i]) < old(desc)@.len(),
    ensures
        final(desc)@.len() == old(desc)@.len(),
        forall|i: int|
            0 <= i < slots@.len() ==> final(desc)@[(#[trigger] slots@[i]) as int] == desc_for(
                chain@[i],
                next_slot(slots@, i),
            ),
        forall|s: int|
            0 <= s < old(desc)@.len() && !slots@.contains(s as u16) ==> #[trigger] final(desc)@[s]
                == old(desc)@[s],
{
    let n = slots.len();
    let mut i: usize = 0;
    while i < n
        invariant
            i <= n,
            n == slots@.len(),
            n == chain@.len(),
            slots@.no_duplicates(),
            desc@.len() == old(desc)@.len(),
            forall|j: int| 0 <= j < slots@.len() ==> (#[trigger] slots@[j]) < desc@.len(),
            forall|j: int|
                0 <= j < i ==> desc@[(#[trigger] slots@[j]) as int] == desc_for(
                    chain@[j],
                    next_slot(slots@, j),
                ),
            forall|s: int|
                0 <= s < desc@.len() && !slots@.contains(s as u16) ==> #[trigger] desc@[s] == old(
                    desc,
                )@[s],
        decreases n - i,
    {
        let b = chain[i];
        let last = i + 1 == n;
        let next: u16 = if last { 0 } else { slots[i + 1] };
        let at = slots[i] as usize;
        let ghost before = desc@;
        desc.set(at, Desc { addr: b.addr, len: b.len, flags: DescF::new(!last, b.write, false), next });
        proof {
            assert forall|j: int| 0 <= j < i + 1 implies desc@[(#[trigger] slots@[j]) as int]
                == desc_for(chain@[j], next_slot(slots@, j)) by {
                if j < i {
                    assert(slots@[j] != slots@[i as int]);
                }
            }
            assert forall|s: int|
                0 <= s < desc@.len() && !slots@.contains(s as u16) implies #[trigger] desc@[s]
                == old(desc)@[s] by {
                if s == at {
                    assert(slots@[i as int] == s as u16);
                }
            }
        }
        i = i + 1;
    }
}

/// Sets who holds the slots `slots`: `first` for the first of them and
/// `rest` for the others.
fn mark(slot: &mut Vec<Slot>, slots: &Vec<u16>, first: Slot, rest: Slot)
    requires
        slots@.no_duplicates(),
        forall|i: int| 0 <= i < slots@.len() ==> (#[trigger] slots@[i]) < old(slot)@.len(),
    ensures
        final(slot)@.len() == old(slot)@.len(),
        forall|i: int|
            0 <= i < slots@.len() ==> final(slot)@[(#[trigger] slots@[i]) as int] == (if i == 0 {
                first
            } else {
                rest
            }),
        forall|s: int|
            0 <= s < old(slot)@.len() && !slots@.contains(s as u16) ==> #[trigger] final(slot)@[s]
                == old(slot)@[s],
{
    let n = slots.len();
    let mut i: usize = 0;
    while i < n
        invariant
            i <= n,
            n == slots@.len(),
            slots@.no_duplicates(),
            slot@.len() == old(slot)@.len(),
            forall|j: int| 0 <= j < slots@.len() ==> (#[trigger] slots@[j]) < slot@.len(),
            forall|j: int|
                0 <= j < i ==> slot@[(#[trigger] slots@[j]) as int] == (if j == 0 {
                    first
                } else {
                    rest
                }),
            forall|s: int|
                0 <= s < slot@.len() && !slots@.contains(s as u16) ==> #[trigger] slot@[s] == old(
                    slot,
                )@[s],
        decreases n - i,
    {
        let at = slots[i] as usize;
        slot.set(at, if i == 0 { first } else { rest });
        proof {
            assert forall|j: int| 0 <= j < i + 1 implies slot@[(#[trigger] slots@[j]) as int] == (
            if j == 0 {
                first
            } else {
                rest
            }) by {
                if j < i {
                    assert(slots@[j] != slots@[i as int]);
                }
            }
            assert forall|s: int|
                0 <= s < slot@.len() && !slots@.contains(s as u16) implies #[trigger] slot@[s]
                == old(slot)@[s] by {
                if s == at {
                    assert(slots@[i as int] == s as u16);
                }
            }
        }
        i = i + 1;
    }
}

impl SplitQueue {
    /// Whether the slots `slots` were all free in `pre` and are the slots
    /// that `self` has taken from its pool since.
    spec fn took(&self, pre: &SplitQueue, slots: Seq<u16>) -> bool {
        &&& slots.no_duplicates()
        &&& slots.len() <= pre.free@.len()
        &&& self.free@ == pre.free@.subrange(0, pre.free@.len() - slots.len())
        &&& forall|i: int|
            0 <= i < slots.len() ==> (#[trigger] slots[i]) < pre.size && pre.slot@[slots[i] as int]
                == Slot::Free
        &&& forall|i: int| 0 <= i < self.free@.len() ==> !slots.contains(#[trigger] self.free@[i])
    }

    /// Publishes `chain` in the available ring, one descriptor for each of
    /// its spans.
    ///
    /// Fails with `MalformedChain` where the chain is empty or longer than
    /// the queue, and with `QueueFull` where fewer descriptor slots are free
    /// than it has spans; the queue is then as before. Else the head of the
    /// chain is returned. The descriptors are written first, then the head
    /// into the available ring, and the index of the ring last. The used
    /// ring is not written.
    #[verifier::rlimit(50)]
    pub fn add_buffer(&mut self, chain: &[Buffer]) -> (r: Result<u16, Error>)
        requires
            old(self).wf(),
        ensures
            final(self).wf(),
            final(self).used_ring() == old(self).used_ring(),
            final(self).spec_size() == old(self).spec_size(),
            final(self).indirect_negotiated() == old(self).indirect_negotiated(),
            match old(self)@.add_refusal(chain@.len()) {
                Some(e) => r == Err::<u16, Error>(e) && final(self)@ == old(self)@
                    && final(self).desc_table() == old(self).desc_table()
                    && final(self).avail_ring() == old(self).avail_ring(),
                None => r is Ok && !old(self)@.chains.dom().contains(r->Ok_0) && final(self)@
                    == old(self)@.add(r->Ok_0, chain@, chain@.len()) && final(self).avail_ring()
                    == old(self).avail_ring().update(
                    slot_of(old(self)@.published, old(self)@.size) as int,
                    r->Ok_0,
                ),
            },
    {
        let n = chain.len();
        if n == 0 || n > self.size as usize {
            return Err(Error::MalformedChain);
        }
        if n > self.free.len() {
            return Err(Error::QueueFull);
        }
        let ghost pre = *self;
        let slots = take_slots(&mut self.free, n);
        let head = slots[0];
        proof {
            assert forall|i: int| 0 <= i < n implies (#[trigger] slots@[i]) < pre.size
                && pre.slot@[slots@[i] as int] == Slot::Free by {
                assert(slots@[i] == pre.free@[pre.free@.len() - 1 - i]);
            }
            assert(slots@.no_duplicates()) by {
                assert forall|i: int, j: int|
                    0 <= i < slots@.len() && 0 <= j < slots@.len() && i != j implies slots@[i]
                    != slots@[j] by {
                    assert(slots@[i] == pre.free@[pre.free@.len() - 1 - i]);
                    assert(slots@[j] == pre.free@[pre.free@.len() - 1 - j]);
                }
            }
            assert forall|i: int| 0 <= i < self.free@.len() implies !slots@.contains(
                #[trigger] self.free@[i],
            ) by {
                if slots@.contains(self.free@[i]) {
                    let j = choose|j: int| 0 <= j < slots@.len() && slots@[j] == self.free@[i];
                    assert(slots@[j] == pre.free@[pre.free@.len() - 1 - j]);
                    assert(self.free@[i] == pre.free@[i]);
                }
            }
            assert(self.took(&pre, slots@));
        }
        write_chain(&mut self.desc, &slots, chain);
        mark(&mut self.slot, &slots, Slot::Pending, Slot::Link);
        let pos = mask_slot(self.avail_idx, self.size);
        proof {
            lemma_index_slot(pre.state@.published, pre.size as nat);
        }
        self.avail_ring.set(pos, head);
        proof {
            self.lemma_staged_offered(&pre, slots@, chain@, pos as int, None);
        }
        // The device is offered what it was offered before: only the write
        // of the index, after the barrier, hands the chain over.
        assert(self.offered() == pre.offered());
        memory_barrier();
        self.avail_idx = self.avail_idx.wrapping_add(1);
        proof {
            self.state = Ghost(pre.state@.add(head, chain@, n as nat));
            self.held = Ghost(pre.held@.insert(head, slots@));
            self.owner = Ghost(
                Map::new(
                    |s: u16| slots@.contains(s) || pre.owner@.dom().contains(s),
                    |s: u16|
                        if slots@.contains(s) {
                            (head, slots@.index_of(s))
                        } else {
                            pre.owner@[s]
                        },
                ),
            );
            self.lemma_added(&pre, slots@, chain@, pos as int, None);
        }
        Ok(head)
    }

    /// Whether `self` is `pre` after a chain was published in the slots
    /// `slots`, taken from the pool, with its head written at `pos` of the
    /// available ring.
    spec fn added(
        &self,
        pre: &SplitQueue,
        slots: Seq<u16>,
        chain: Seq<Buffer>,
        pos: int,
        table: Option<Seq<Desc>>,
    ) -> bool {
        &&& self.staged(pre, slots, chain, pos, table)
        &&& self.avail_idx == pre.avail_idx.wrapping_add(1)
        &&& self.state@ == pre.state@.add(slots[0], chain, slots.len())
        &&& self.held@ == pre.held@.insert(slots[0], slots)
        &&& self.owner@ == Map::new(
            |s: u16| slots.contains(s) || pre.owner@.dom().contains(s),
            |s: u16|
                if slots.contains(s) {
                    (slots[0], slots.index_of(s))
                } else {
                    pre.owner@[s]
                },
        )
    }

    /// Whether `self` is `pre` after the descriptors of a chain were written
    /// into the slots `slots`, taken from the pool, and its head at `pos` of
    /// the available ring, whose index is yet to move.
    spec fn staged(
        &self,
        pre: &SplitQueue,
        slots: Seq<u16>,
        chain: Seq<Buffer>,
        pos: int,
        table: Option<Seq<Desc>>,
    ) -> bool {
        &&& pre.wf()
        &&& 1 <= slots.len() <= pre.size
        &&& chain.len() >= 1
        &&& self.took(pre, slots)
        &&& self.size == pre.size
        &&& self.indirect == pre.indirect
        &&& self.side@.len() == pre.side@.len()
        &&& forall|h: int|
            0 <= h < pre.size && h != slots[0] ==> #[trigger] self.side@[h] == pre.side@[h]
        &&& match table {
            None => {
                &&& slots.len() == chain.len()
                &&& self.side@[slots[0] as int] == pre.side@[slots[0] as int]
                &&& forall|i: int|
                    0 <= i < slots.len() ==> self.desc@[(#[trigger] slots[i]) as int] == desc_for(
                        chain[i],
                        next_slot(slots, i),
                    )
            },
            Some(t) => {
                &&& slots.len() == 1
                &&& t.len() > 0
                &&& indirect_chain(t) == Some(chain)
                &&& self.side@[slots[0] as int]@ == t
                &&& self.desc@[slots[0] as int].flags == DescF::of(false, false, true)
            },
        }
        &&& self.used_ring == pre.used_ring
        &&& self.used_idx == pre.used_idx
        &&& self.last_used_idx == pre.last_used_idx
        &&& self.last_avail_idx == pre.last_avail_idx
        &&& pos == pre.avail_idx as nat % pre.size as nat
        &&& self.avail_ring@ == pre.avail_ring@.update(pos, slots[0])
        &&& self.desc@.len() == pre.desc@.len()
        &&& forall|s: int|
            0 <= s < pre.desc@.len() && !slots.contains(s as u16) ==> #[trigger] self.desc@[s]
                == pre.desc@[s]
        &&& self.slot@.len() == pre.slot@.len()
        &&& forall|i: int|
            0 <= i < slots.len() ==> self.slot@[(#[trigger] slots[i]) as int] == (if i == 0 {
                Slot::Pending
            } else {
                Slot::Link
            })
        &&& forall|s: int|
            0 <= s < pre.slot@.len() && !slots.contains(s as u16) ==> #[trigger] self.slot@[s]
                == pre.slot@[s]
    }

    /// Whether `self` differs from `pre` in slots that were free in `pre`
    /// only, of which `head` is now pending and the others are links or
    /// still free.
    spec fn grew(&self, pre: &SplitQueue, head: u16) -> bool {
        &&& self.size == pre.size
        &&& self.slot@.len() == pre.slot@.len()
        &&& self.desc@.len() == pre.desc@.len()
        &&& head < pre.size
        &&& pre.slot@[head as int] == Slot::Free
        &&& self.slot@[head as int] == Slot::Pending
        &&& forall|s: int|
            0 <= s < pre.size && #[trigger] pre.slot@[s] != Slot::Free ==> self.slot@[s]
                == pre.slot@[s] && self.desc@[s] == pre.desc@[s]
        &&& forall|s: int|
            0 <= s < pre.size && #[trigger] pre.slot@[s] == Slot::Free && s != head
                ==> self.slot@[s] == Slot::Free || self.slot@[s] == Slot::Link
    }

    /// Publishing a chain changes slots that were free only.
    #[verifier::rlimit(50)]
    proof fn lemma_added_grew(
        &self,
        pre: &SplitQueue,
        slots: Seq<u16>,
        chain: Seq<Buffer>,
        pos: int,
        table: Option<Seq<Desc>>,
    )
        requires
            self.added(pre, slots, chain, pos, table),
        ensures
            self.grew(pre, slots[0]),
            !pre.state@.chains.dom().contains(slots[0]),
    {
        let head = slots[0];
        assert(pre.slot@[slots[0] as int] == Slot::Free);
        assert(self.slot@[slots[0] as int] == Slot::Pending);
        assert forall|s: int|
            0 <= s < pre.size && #[trigger] pre.slot@[s] != Slot::Free implies self.slot@[s]
            == pre.slot@[s] && self.desc@[s] == pre.desc@[s] by {
            if slots.contains(s as u16) {
                let j = choose|j: int| 0 <= j < slots.len() && slots[j] == s as u16;
                assert(pre.slot@[slots[j] as int] == Slot::Free);
            }
        }
        assert forall|s: int|
            0 <= s < pre.size && #[trigger] pre.slot@[s] == Slot::Free && s != head implies self.slot@[s]
            == Slot::Free || self.slot@[s] == Slot::Link by {
            if slots.contains(s as u16) {
                let j = choose|j: int| 0 <= j < slots.len() && slots[j] == s as u16;
                assert(self.slot@[slots[j] as int] == (if j == 0 {
                    Slot::Pending
                } else {
                    Slot::Link
                }));
            }
        }
        assert(!pre.is_head_slot(head));
    }

    /// Publishing a chain keeps the tables, the pool and the counts well.
    #[verifier::rlimit(50)]
    proof fn lemma_added_free(
        &self,
        pre: &SplitQueue,
        slots: Seq<u16>,
        chain: Seq<Buffer>,
        pos: int,
        table: Option<Seq<Desc>>,
    )
        requires
            self.added(pre, slots, chain, pos, table),
        ensures
            self.wf_tables(),
            self.wf_free(),
            self.wf_counts(),
    {
        self.lemma_added_grew(pre, slots, chain, pos, table);
        assert forall|h: int|
            0 <= h < self.size && !(#[trigger] self.slot@[h]).is_head() implies self.side@[h]@.len()
            == 0 by {
            assert(h != slots[0]);
            assert(self.side@[h] == pre.side@[h]);
            if pre.slot@[h] != Slot::Free {
                assert(self.slot@[h] == pre.slot@[h]);
            } else {
                assert(!pre.slot@[h].is_head());
            }
        }
        assert forall|i: int| 0 <= i < self.free@.len() implies (#[trigger] self.free@[i])
            < self.size && self.slot@[self.free@[i] as int] == Slot::Free by {
            assert(self.free@[i] == pre.free@[i]);
            assert(!slots.contains(self.free@[i]));
        }
        assert(self.free@.no_duplicates()) by {
            assert forall|i: int, j: int|
                0 <= i < self.free@.len() && 0 <= j < self.free@.len() && i != j implies self.free@[i]
                != self.free@[j] by {
                assert(self.free@[i] == pre.free@[i]);
                assert(self.free@[j] == pre.free@[j]);
            }
        }
    }

    /// Publishing a chain keeps the heads and their chains well.
    #[verifier::rlimit(50)]
    proof fn lemma_added_heads(
        &self,
        pre: &SplitQueue,
        slots: Seq<u16>,
        chain: Seq<Buffer>,
        pos: int,
        table: Option<Seq<Desc>>,
    )
        requires
            self.added(pre, slots, chain, pos, table),
        ensures
            self.wf_heads(),
    {
        self.lemma_added_grew(pre, slots, chain, pos, table);
        let head = slots[0];
        let s0 = pre.state@;
        let s1 = self.state@;
        assert forall|h: u16|
            #![trigger self.is_head_slot(h)]
            #![trigger s1.chains.dom().contains(h)]
            s1.chains.dom().contains(h) <==> self.is_head_slot(h) by {
            assert(s0.chains.dom().contains(h) <==> pre.is_head_slot(h));
            if h < self.size && h != head {
                if pre.slot@[h as int] != Slot::Free {
                    assert(self.slot@[h as int] == pre.slot@[h as int]);
                } else {
                    assert(!self.slot@[h as int].is_head());
                }
            }
        }
        assert forall|h: u16|
            s1.chains.dom().contains(h) <==> s1.slots.dom().contains(h) by {
            assert(s0.chains.dom().contains(h) <==> s0.slots.dom().contains(h));
        }
        assert forall|h: u16|
            s1.chains.dom().contains(h) <==> self.held@.dom().contains(h) by {
            assert(s0.chains.dom().contains(h) <==> pre.held@.dom().contains(h));
        }
        assert forall|h: u16| s1.chains.dom().contains(h) implies #[trigger] self.wf_chain(h) by {
            if h == head {
                self.lemma_added_new_chain(pre, slots, chain, pos, table);
            } else {
                self.lemma_added_old_chain(pre, slots, chain, pos, table, h);
            }
        }
    }

    /// The chain that was published lies in the table.
    #[verifier::rlimit(50)]
    proof fn lemma_added_new_chain(
        &self,
        pre: &SplitQueue,
        slots: Seq<u16>,
        chain: Seq<Buffer>,
        pos: int,
        table: Option<Seq<Desc>>,
    )
        requires
            self.added(pre, slots, chain, pos, table),
        ensures
            self.wf_chain(slots[0]),
    {
        let h = slots[0];
        assert(pre.slot@[slots[0] as int] == Slot::Free);
        if table is None {
            assert(self.side@[h as int]@.len() == 0) by {
                assert(!pre.slot@[h as int].is_head());
            }
        }
        assert forall|i: int| 0 <= i < slots.len() implies (#[trigger] slots[i]) < self.size
            && self.owner@.dom().contains(slots[i]) && self.owner@[slots[i]] == (h, i) && (i > 0
            ==> self.slot@[slots[i] as int] == Slot::Link) by {
            assert(slots.contains(slots[i]));
            let k = slots.index_of(slots[i]);
            assert(0 <= k < slots.len() && slots[k] == slots[i]);
        }
    }

    /// A chain that lay in the table before another was published lies
    /// there still.
    #[verifier::rlimit(50)]
    proof fn lemma_added_old_chain(
        &self,
        pre: &SplitQueue,
        slots: Seq<u16>,
        chain: Seq<Buffer>,
        pos: int,
        table: Option<Seq<Desc>>,
        h: u16,
    )
        requires
            self.added(pre, slots, chain, pos, table),
            pre.state@.chains.dom().contains(h),
        ensures
            self.wf_chain(h),
    {
        self.lemma_added_grew(pre, slots, chain, pos, table);
        assert(pre.wf_chain(h));
        assert(h != slots[0]);
        let sl = pre.held@[h];
        assert(pre.is_head_slot(h));
        assert(self.side@[h as int] == pre.side@[h as int]);
        assert forall|i: int| 0 <= i < sl.len() implies pre.slot@[(#[trigger] sl[i]) as int]
            != Slot::Free && !slots.contains(sl[i]) by {
            if i == 0 {
                assert(sl[0] == h);
            } else {
                assert(pre.slot@[sl[i] as int] == Slot::Link);
            }
            if slots.contains(sl[i]) {
                let j = choose|j: int| 0 <= j < slots.len() && slots[j] == sl[i];
                assert(pre.slot@[slots[j] as int] == Slot::Free);
            }
        }
        assert forall|i: int| 0 <= i < sl.len() implies (#[trigger] sl[i]) < self.size
            && self.owner@.dom().contains(sl[i]) && self.owner@[sl[i]] == (h, i) && (i > 0
            ==> self.slot@[sl[i] as int] == Slot::Link) by {
            assert(pre.slot@[sl[i] as int] != Slot::Free);
        }
        if self.side@[h as int]@.len() == 0 {
            assert forall|i: int| 0 <= i < sl.len() implies self.desc@[(#[trigger] sl[i]) as int]
                == desc_for(self.state@.chains[h][i], next_slot(sl, i)) by {
                assert(pre.slot@[sl[i] as int] != Slot::Free);
            }
        }
    }

    /// Publishing a chain keeps what is pending well: the new head follows
    /// the others in the available ring and falls on the slot of none of them.
    #[verifier::rlimit(50)]
    proof fn lemma_added_pending(
        &self,
        pre: &SplitQueue,
        slots: Seq<u16>,
        chain: Seq<Buffer>,
        pos: int,
        table: Option<Seq<Desc>>,
    )
        requires
            self.added(pre, slots, chain, pos, table),
        ensures
            self.state@.pending.no_duplicates(),
            self.state@.pending.len() <= self.size,
            forall|k: int|
                0 <= k < self.state@.pending.len() ==> (#[trigger] self.state@.pending[k])
                    < self.size && self.slot@[self.state@.pending[k] as int] == Slot::Pending,
            forall|k: int|
                0 <= k < self.state@.pending.len() ==> self.avail_ring@[slot_of(
                    (self.state@.consumed + k) as nat,
                    self.size as nat,
                ) as int] == #[trigger] self.state@.pending[k],
    {
        self.lemma_added_grew(pre, slots, chain, pos, table);
        let head = slots[0];
        let size = pre.size as nat;
        let s0 = pre.state@;
        let s1 = self.state@;
        assert forall|k: int| 0 <= k < s0.pending.len() implies #[trigger] s0.pending[k] != head by {
            assert(pre.slot@[s0.pending[k] as int] == Slot::Pending);
        }
        assert(s1.pending.no_duplicates());
        assert forall|i: int| 0 <= i < s1.pending.len() implies (#[trigger] s1.pending[i] as nat)
            < size by {
            if i < s0.pending.len() {
                assert(s0.pending[i] < pre.size);
            }
        }
        lemma_distinct_slots(s1.pending, size);
        lemma_index_slot(s0.published, size);
        assert(pos == slot_of(s0.published, size));
        assert forall|k: int| 0 <= k < s1.pending.len() implies (#[trigger] s1.pending[k])
            < self.size && self.slot@[s1.pending[k] as int] == Slot::Pending by {
            if k < s0.pending.len() {
                assert(pre.slot@[s0.pending[k] as int] == Slot::Pending);
            }
        }
        assert forall|k: int| 0 <= k < s1.pending.len() implies self.avail_ring@[slot_of(
            (s1.consumed + k) as nat,
            self.size as nat,
        ) as int] == #[trigger] s1.pending[k] by {
            if k < s0.pending.len() {
                lemma_slots_differ((s0.consumed + k) as nat, s0.published, size);
                lemma_index_slot((s0.consumed + k) as nat, size);
                assert(s0.pending[k] == s1.pending[k]);
            }
        }
    }

    /// Publishing a chain keeps both rings well.
    #[verifier::rlimit(50)]
    proof fn lemma_added_rings(
        &self,
        pre: &SplitQueue,
        slots: Seq<u16>,
        chain: Seq<Buffer>,
        pos: int,
        table: Option<Seq<Desc>>,
    )
        requires
            self.added(pre, slots, chain, pos, table),
        ensures
            self.wf_rings(),
    {
        self.lemma_added_grew(pre, slots, chain, pos, table);
        self.lemma_added_pending(pre, slots, chain, pos, table);
        let s0 = pre.state@;
        let s1 = self.state@;
        assert(s1.taken == s0.taken);
        assert(s1.completed == s0.completed);
        assert(s1.returned == s0.returned);
        assert(s1.polled == s0.polled);
        assert forall|k: int| 0 <= k < s1.taken.len() implies (#[trigger] s1.taken[k]) < self.size
            && self.slot@[s1.taken[k] as int] == Slot::Taken by {
            assert(pre.slot@[s0.taken[k] as int] == Slot::Taken);
        }
        assert forall|h: u16|
            h < self.size && #[trigger] self.slot@[h as int] == Slot::Taken implies s1.taken.contains(
            h,
        ) by {
            if pre.slot@[h as int] != Slot::Free {
                assert(self.slot@[h as int] == pre.slot@[h as int]);
            }
        }
        assert forall|k: int| 0 <= k < s1.completed.len() implies (#[trigger] s1.completed[k]).id
            < self.size && self.slot@[s1.completed[k].id as int] == Slot::Completed by {
            assert(pre.slot@[s0.completed[k].id as int] == Slot::Completed);
        }
        assert forall|k: int| 0 <= k < s1.returned.len() implies (#[trigger] s1.returned[k])
            < self.size && self.slot@[s1.returned[k] as int] == Slot::Returned by {
            assert(pre.slot@[s0.returned[k] as int] == Slot::Returned);
        }
        assert forall|h: u16|
            h < self.size && #[trigger] self.slot@[h as int] == Slot::Returned implies s1.returned.contains(
            h,
        ) by {
            if pre.slot@[h as int] != Slot::Free {
                assert(self.slot@[h as int] == pre.slot@[h as int]);
            }
        }
    }

    /// The queue is kept well by publishing a chain in slots taken from the
    /// pool.
    proof fn lemma_added(
        &self,
        pre: &SplitQueue,
        slots: Seq<u16>,
        chain: Seq<Buffer>,
        pos: int,
        table: Option<Seq<Desc>>,
    )
        requires
            self.added(pre, slots, chain, pos, table),
        ensures
            self.wf(),
            !pre.state@.chains.dom().contains(slots[0]),
    {
        self.lemma_added_grew(pre, slots, chain, pos, table);
        self.lemma_added_free(pre, slots, chain, pos, table);
        self.lemma_added_heads(pre, slots, chain, pos, table);
        self.lemma_added_rings(pre, slots, chain, pos, table);
    }
}

/// What is left of a list of distinct heads when one of them is removed.
proof fn lemma_remove_head(t: Seq<u16>, x: u16)
    requires
        t.no_duplicates(),
        t.contains(x),
    ensures
        t.remove(t.index_of(x)).no_duplicates(),
        t.remove(t.index_of(x)).len() == t.len() - 1,
        !t.remove(t.index_of(x)).contains(x),
        forall|y: u16| y != x && t.contains(y) ==> #[trigger] t.remove(t.index_of(x)).contains(y),
        forall|k: int|
            0 <= k < t.len() - 1 ==> t.contains(#[trigger] t.remove(t.index_of(x))[k]) && t.remove(
                t.index_of(x),
            )[k] != x,
{
    let i = t.index_of(x);
    let r = t.remove(i);
    assert(0 <= i < t.len() && t[i] == x);
    assert forall|k: int| 0 <= k < r.len() implies #[trigger] r[k] == t[if k < i {
        k
    } else {
        k + 1
    }] by {}
    assert forall|y: u16| y != x && t.contains(y) implies #[trigger] r.contains(y) by {
        let j = choose|j: int| 0 <= j < t.len() && t[j] == y;
        if j < i {
            assert(r[j] == y);
        } else {
            assert(r[j - 1] == y);
        }
    }
}

impl SplitQueue {
    /// Reads the chain of the head `head` from the descriptor table, and
    /// from its side table where the head is an indirect descriptor.
    fn read_buffers(&self, head: u16) -> (r: Vec<Buffer>)
        requires
            self.wf(),
            self@.chains.dom().contains(head),
        ensures
            r@ == self@.chains[head],
    {
        proof {
            self.lemma_chain_in_table(head);
        }
        match resolve_chain(self.desc.as_slice(), self.side[head as usize].as_slice(), head) {
            Ok(chain) => chain,
            Err(_) => Vec::new(),
        }
    }

    /// A chain of the state is what following its head through the
    /// descriptor table finds.
    #[verifier::rlimit(50)]
    proof fn lemma_chain_in_table(&self, head: u16)
        requires
            self.wf(),
            self.state@.chains.dom().contains(head),
        ensures
            chain_at(self.desc@, head as int, self.desc@.len()) == Some(
                descs_at(self.desc@, self.held@[head]),
            ),
            linked(self.desc@, self.held@[head]),
            self.held@[head][0] == head,
            descs_at(self.desc@, self.held@[head]).len() >= 1,
            descs_at(self.desc@, self.held@[head])[0] == self.desc@[head as int],
            self.desc@[head as int].flags.has_indirect() ==> indirect_chain(
                self.side@[head as int]@,
            ) == Some(self.state@.chains[head]),
            !self.desc@[head as int].flags.has_indirect() ==> buffers_of(
                descs_at(self.desc@, self.held@[head]),
            ) == self.state@.chains[head],
            resolve(self.desc@, self.side@[head as int]@, head as int) == Some(
                self.state@.chains[head],
            ),
    {
        assert(self.wf_chain(head));
        assert(self.is_head_slot(head));
        let sl = self.held@[head];
        let b = self.state@.chains[head];
        let table = self.desc@;
        DescF::lemma_of(false, false, true);
        if self.side@[head as int]@.len() == 0 {
            assert forall|i: int| 0 <= i < sl.len() implies (#[trigger] table[sl[i] as int]).flags.has_next()
                == (i + 1 < sl.len()) && !table[sl[i] as int].flags.has_indirect() && buffer_of(
                table[sl[i] as int],
            ) == b[i] by {
                assert(table[sl[i] as int] == desc_for(b[i], next_slot(sl, i)));
                DescF::lemma_of(i + 1 < sl.len(), b[i].write, false);
            }
            assert(linked(table, sl)) by {
                assert forall|i: int|
                    #![trigger sl[i]]
                    0 <= i < sl.len() - 1 implies table[sl[i] as int].flags.has_next()
                    && table[sl[i] as int].next == sl[i + 1] by {
                    assert(table[sl[i] as int].flags.has_next());
                    assert(table[sl[i] as int] == desc_for(b[i], next_slot(sl, i)));
                }
                assert(!table[sl[sl.len() - 1] as int].flags.has_next());
            }
            assert(buffers_of(descs_at(table, sl)) =~= b);
        } else {
            assert(linked(table, sl));
        }
        lemma_distinct_chain(self, head);
        lemma_linked_chain(table, sl, table.len());
    }
}

/// A chain occupies distinct slots, so it is no longer than the table.
proof fn lemma_distinct_chain(q: &SplitQueue, head: u16)
    requires
        q.wf(),
        q.state@.chains.dom().contains(head),
    ensures
        q.held@[head].no_duplicates(),
        q.held@[head].len() <= q.size,
{
    assert(q.wf_chain(head));
    let sl = q.held@[head];
    assert forall|i: int, j: int| 0 <= i < sl.len() && 0 <= j < sl.len() && i != j implies sl[i]
        != sl[j] by {
        assert(q.owner@[sl[i]] == (head, i));
        assert(q.owner@[sl[j]] == (head, j));
    }
    assert forall|i: int| 0 <= i < sl.len() implies (#[trigger] sl[i] as nat) < q.size as nat by {
        assert(sl[i] < q.size);
    }
    lemma_distinct_slots(sl, q.size as nat);
}

impl SplitQueue {
    /// Takes the oldest pending chain for the device: its head and its
    /// spans of memory, those of a side table as if they stood in the
    /// descriptor table.
    ///
    /// Returns nothing, and leaves the queue as it is, where the driver has
    /// published nothing that the device has not yet taken.
    #[verifier::rlimit(50)]
    pub fn pop_avail(&mut self) -> (r: Option<(u16, Vec<Buffer>)>)
        requires
            old(self).wf(),
        ensures
            final(self).wf(),
            final(self).desc_table() == old(self).desc_table(),
            final(self).avail_ring() == old(self).avail_ring(),
            final(self).used_ring() == old(self).used_ring(),
            final(self).spec_size() == old(self).spec_size(),
            final(self).indirect_negotiated() == old(self).indirect_negotiated(),
            old(self)@.pending.len() == 0 ==> r is None && final(self)@ == old(self)@,
            old(self)@.pending.len() > 0 ==> (r matches Some((head, chain)) && head == old(
                self,
            )@.pending[0] && chain@ == old(self)@.chains[head]) && final(self)@ == old(
                self,
            )@.take(),
    {
        if self.last_avail_idx == self.avail_idx {
            return None;
        }
        memory_barrier();
        let ghost pre = *self;
        let pos = mask_slot(self.last_avail_idx, self.size);
        let head = self.avail_ring[pos];
        proof {
            lemma_index_slot(pre.state@.consumed, pre.size as nat);
            assert(pre.state@.pending[0] == head);
            assert(pre.is_head_slot(head));
        }
        let chain = self.read_buffers(head);
        self.slot.set(head as usize, Slot::Taken);
        self.last_avail_idx = self.last_avail_idx.wrapping_add(1);
        proof {
            self.state = Ghost(pre.state@.take());
            self.lemma_taken(&pre, head);
        }
        Some((head, chain))
    }

    /// Whether `self` is `pre` after the slot `head` has gone from `from`
    /// to `to`, both of them states of a head, with nothing else changed
    /// but the rings, the cursors and the state.
    spec fn moved(&self, pre: &SplitQueue, head: u16, from: Slot, to: Slot) -> bool {
        &&& pre.wf()
        &&& head < pre.size
        &&& pre.slot@[head as int] == from
        &&& from.is_head()
        &&& to.is_head()
        &&& self.slot@ == pre.slot@.update(head as int, to)
        &&& self.size == pre.size
        &&& self.indirect == pre.indirect
        &&& self.desc == pre.desc
        &&& self.side == pre.side
        &&& self.free == pre.free
        &&& self.held == pre.held
        &&& self.owner == pre.owner
        &&& self.avail_ring@.len() == pre.avail_ring@.len()
        &&& self.used_ring@.len() == pre.used_ring@.len()
        &&& self.state@.size == pre.state@.size
        &&& self.state@.num_free == pre.state@.num_free
        &&& self.state@.chains == pre.state@.chains
        &&& self.state@.slots == pre.state@.slots
    }

    /// Moving a head from one state to another keeps the tables, the pool
    /// and the chains well.
    #[verifier::rlimit(50)]
    proof fn lemma_moved(&self, pre: &SplitQueue, head: u16, from: Slot, to: Slot)
        requires
            self.moved(pre, head, from, to),
        ensures
            self.wf_tables(),
            self.wf_free(),
            self.wf_heads(),
            forall|h: int|
                0 <= h < pre.size && h != head ==> #[trigger] self.slot@[h] == pre.slot@[h],
            self.slot@[head as int] == to,
    {
        assert forall|h: int|
            0 <= h < self.size && !(#[trigger] self.slot@[h]).is_head() implies self.side@[h]@.len()
            == 0 by {
            assert(!pre.slot@[h].is_head());
        }
        assert forall|i: int| 0 <= i < self.free@.len() implies (#[trigger] self.free@[i])
            < self.size && self.slot@[self.free@[i] as int] == Slot::Free by {
            assert(pre.slot@[pre.free@[i] as int] == Slot::Free);
        }
        assert forall|h: u16|
            #![trigger self.is_head_slot(h)]
            #![trigger self.state@.chains.dom().contains(h)]
            self.state@.chains.dom().contains(h) <==> self.is_head_slot(h) by {
            assert(pre.state@.chains.dom().contains(h) <==> pre.is_head_slot(h));
        }
        assert forall|h: u16| self.state@.chains.dom().contains(h) implies #[trigger] self.wf_chain(
            h,
        ) by {
            assert(pre.wf_chain(h));
            let sl = pre.held@[h];
            assert forall|i: int| 0 <= i < sl.len() implies (#[trigger] sl[i]) < self.size
                && self.owner@.dom().contains(sl[i]) && self.owner@[sl[i]] == (h, i) && (i > 0
                ==> self.slot@[sl[i] as int] == Slot::Link) by {
                if i > 0 {
                    assert(pre.slot@[sl[i] as int] == Slot::Link);
                }
            }
        }
    }

    /// Whether `self` is `pre` after the device has taken the oldest pending
    /// chain, whose head is `head`.
    spec fn took_head(&self, pre: &SplitQueue, head: u16) -> bool {
        &&& self.moved(pre, head, Slot::Pending, Slot::Taken)
        &&& pre.state@.pending.len() > 0
        &&& head == pre.state@.pending[0]
        &&& self.state@ == pre.state@.take()
        &&& self.avail_ring == pre.avail_ring
        &&& self.used_ring == pre.used_ring
        &&& self.avail_idx == pre.avail_idx
        &&& self.used_idx == pre.used_idx
        &&& self.last_used_idx == pre.last_used_idx
        &&& self.last_avail_idx == pre.last_avail_idx.wrapping_add(1)
    }

    /// Taking the oldest pending chain leaves the others pending, in their
    /// slots of the available ring.
    #[verifier::rlimit(50)]
    proof fn lemma_taken_pending(&self, pre: &SplitQueue, head: u16)
        requires
            self.took_head(pre, head),
        ensures
            self.wf_pending(),
    {
        self.lemma_moved(pre, head, Slot::Pending, Slot::Taken);
        let s0 = pre.state@;
        let s1 = self.state@;
        assert forall|k: int| 0 <= k < s1.pending.len() implies #[trigger] s1.pending[k]
            == s0.pending[k + 1] && s1.pending[k] != head by {
            assert(s0.pending[k + 1] != s0.pending[0]);
        }
        assert forall|k: int| 0 <= k < s1.pending.len() implies (#[trigger] s1.pending[k])
            < self.size && self.slot@[s1.pending[k] as int] == Slot::Pending by {
            assert(s1.pending[k] == s0.pending[k + 1]);
            assert(pre.slot@[s0.pending[k + 1] as int] == Slot::Pending);
        }
        assert forall|k: int| 0 <= k < s1.pending.len() implies self.avail_ring@[slot_of(
            (s1.consumed + k) as nat,
            self.size as nat,
        ) as int] == #[trigger] s1.pending[k] by {
            assert(s1.pending[k] == s0.pending[k + 1]);
            assert((s1.consumed + k) as nat == (s0.consumed + (k + 1)) as nat);
        }
        assert(s1.pending.no_duplicates()) by {
            assert forall|i: int, j: int|
                0 <= i < s1.pending.len() && 0 <= j < s1.pending.len() && i != j implies s1.pending[i]
                != s1.pending[j] by {
                assert(s1.pending[i] == s0.pending[i + 1]);
                assert(s1.pending[j] == s0.pending[j + 1]);
            }
        }
    }

    /// Taking the oldest pending chain adds its head to those that the
    /// device holds.
    #[verifier::rlimit(50)]
    proof fn lemma_taken_taken(&self, pre: &SplitQueue, head: u16)
        requires
            self.took_head(pre, head),
        ensures
            self.wf_taken(),
    {
        self.lemma_moved(pre, head, Slot::Pending, Slot::Taken);
        let s0 = pre.state@;
        let s1 = self.state@;
        assert forall|k: int| 0 <= k < s0.taken.len() implies #[trigger] s0.taken[k] != head by {
            assert(pre.slot@[s0.taken[k] as int] == Slot::Taken);
        }
        assert(s1.taken.no_duplicates());
        assert forall|k: int| 0 <= k < s1.taken.len() implies (#[trigger] s1.taken[k]) < self.size
            && self.slot@[s1.taken[k] as int] == Slot::Taken by {
            if k < s0.taken.len() {
                assert(s0.taken[k] != head);
                assert(pre.slot@[s0.taken[k] as int] == Slot::Taken);
            }
        }
        assert forall|h: u16|
            h < self.size && #[trigger] self.slot@[h as int] == Slot::Taken implies s1.taken.contains(
            h,
        ) by {
            if h == head {
                assert(s1.taken[s0.taken.len() as int] == head);
            } else {
                assert(pre.slot@[h as int] == Slot::Taken);
                assert(s0.taken.contains(h));
                let j = choose|j: int| 0 <= j < s0.taken.len() && s0.taken[j] == h;
                assert(s1.taken[j] == h);
            }
        }
    }

    /// The queue is kept well by the device taking the oldest pending
    /// chain.
    #[verifier::rlimit(50)]
    proof fn lemma_taken(&self, pre: &SplitQueue, head: u16)
        requires
            self.took_head(pre, head),
        ensures
            self.wf(),
    {
        self.lemma_moved(pre, head, Slot::Pending, Slot::Taken);
        self.lemma_taken_pending(pre, head);
        self.lemma_taken_taken(pre, head);
        self.lemma_kept_completed(pre, head, Slot::Pending, Slot::Taken);
        self.lemma_kept_returned(pre, head, Slot::Pending, Slot::Taken);
        assert(self.wf_counts());
    }
}

impl SplitQueue {
    /// What is pending is kept well where no head comes to or leaves that
    /// state and the available ring stays as it is.
    proof fn lemma_kept_pending(&self, pre: &SplitQueue, head: u16, from: Slot, to: Slot)
        requires
            self.moved(pre, head, from, to),
            from != Slot::Pending,
            to != Slot::Pending,
            self.state@.pending == pre.state@.pending,
            self.state@.consumed == pre.state@.consumed,
            self.avail_ring == pre.avail_ring,
        ensures
            self.wf_pending(),
    {
        let s0 = pre.state@;
        assert forall|k: int| 0 <= k < s0.pending.len() implies (#[trigger] s0.pending[k])
            < self.size && self.slot@[s0.pending[k] as int] == Slot::Pending by {
            assert(pre.slot@[s0.pending[k] as int] == Slot::Pending);
        }
    }

    /// What is taken is kept well where no head comes to or leaves that
    /// state.
    proof fn lemma_kept_taken(&self, pre: &SplitQueue, head: u16, from: Slot, to: Slot)
        requires
            self.moved(pre, head, from, to),
            from != Slot::Taken,
            to != Slot::Taken,
            self.state@.taken == pre.state@.taken,
        ensures
            self.wf_taken(),
    {
        let s0 = pre.state@;
        assert forall|k: int| 0 <= k < s0.taken.len() implies (#[trigger] s0.taken[k]) < self.size
            && self.slot@[s0.taken[k] as int] == Slot::Taken by {
            assert(pre.slot@[s0.taken[k] as int] == Slot::Taken);
        }
        assert forall|h: u16|
            h < self.size && #[trigger] self.slot@[h as int] == Slot::Taken implies s0.taken.contains(
            h,
        ) by {
            assert(pre.slot@[h as int] == Slot::Taken);
        }
    }

    /// What is completed is kept well where no head comes to or leaves that
    /// state and the used ring stays as it is.
    proof fn lemma_kept_completed(&self, pre: &SplitQueue, head: u16, from: Slot, to: Slot)
        requires
            self.moved(pre, head, from, to),
            from != Slot::Completed,
            to != Slot::Completed,
            self.state@.completed == pre.state@.completed,
            self.state@.polled == pre.state@.polled,
            self.used_ring == pre.used_ring,
        ensures
            self.wf_completed(),
    {
        let s0 = pre.state@;
        assert forall|k: int| 0 <= k < s0.completed.len() implies (#[trigger] s0.completed[k]).id
            < self.size && self.slot@[s0.completed[k].id as int] == Slot::Completed by {
            assert(pre.slot@[s0.completed[k].id as int] == Slot::Completed);
        }
    }

    /// What is returned is kept well where no head comes to or leaves that
    /// state.
    proof fn lemma_kept_returned(&self, pre: &SplitQueue, head: u16, from: Slot, to: Slot)
        requires
            self.moved(pre, head, from, to),
            from != Slot::Returned,
            to != Slot::Returned,
            self.state@.returned == pre.state@.returned,
        ensures
            self.wf_returned(),
    {
        let s0 = pre.state@;
        assert forall|k: int| 0 <= k < s0.returned.len() implies (#[trigger] s0.returned[k])
            < self.size && self.slot@[s0.returned[k] as int] == Slot::Returned by {
            assert(pre.slot@[s0.returned[k] as int] == Slot::Returned);
        }
        assert forall|h: u16|
            h < self.size && #[trigger] self.slot@[h as int] == Slot::Returned implies s0.returned.contains(
            h,
        ) by {
            assert(pre.slot@[h as int] == Slot::Returned);
        }
    }

    /// Writes the completion of the chain of `head` into the used ring for
    /// the device, with `len` bytes written.
    ///
    /// Fails with `MalformedChain`, and leaves the queue as it is, where the
    /// device has not taken that chain or has completed it already. The
    /// entry of the used ring is written first, and the index of the ring
    /// last.
    #[verifier::rlimit(50)]
    pub fn push_used(&mut self, head: u16, len: u32) -> (r: Result<(), Error>)
        requires
            old(self).wf(),
        ensures
            final(self).wf(),
            final(self).desc_table() == old(self).desc_table(),
            final(self).avail_ring() == old(self).avail_ring(),
            final(self).spec_size() == old(self).spec_size(),
            final(self).indirect_negotiated() == old(self).indirect_negotiated(),
            !old(self)@.taken.contains(head) ==> r == Err::<(), Error>(Error::MalformedChain)
                && final(self)@ == old(self)@ && final(self).used_ring() == old(self).used_ring(),
            old(self)@.taken.contains(head) ==> r is Ok && final(self)@ == old(self)@.complete(
                head,
                len,
            ) && final(self).used_ring() == old(self).used_ring().update(
                slot_of(old(self)@.used, old(self)@.size) as int,
                UsedElem { id: head as u32, len },
            ),
    {
        if head >= self.size || self.slot[head as usize] != Slot::Taken {
            proof {
                if self.state@.taken.contains(head) {
                    let k = choose|k: int|
                        0 <= k < self.state@.taken.len() && self.state@.taken[k] == head;
                    assert(self.slot@[self.state@.taken[k] as int] == Slot::Taken);
                }
            }
            return Err(Error::MalformedChain);
        }
        let ghost pre = *self;
        let pos = mask_slot(self.used_idx, self.size);
        proof {
            lemma_index_slot(pre.state@.used, pre.size as nat);
        }
        self.used_ring.set(pos, UsedElem { id: head as u32, len });
        proof {
            self.lemma_staged_reported(&pre, head, pos as int, UsedElem { id: head as u32, len });
        }
        // The driver is reported what it was reported before: only the
        // write of the index, after the barrier, hands the completion over.
        assert(self.reported() == pre.reported());
        self.slot.set(head as usize, Slot::Completed);
        memory_barrier();
        self.used_idx = self.used_idx.wrapping_add(1);
        proof {
            assert(pre.state@.taken.contains(head));
            self.state = Ghost(pre.state@.complete(head, len));
            self.lemma_completed(&pre, head, len, pos as int);
        }
        Ok(())
    }

    /// The queue is kept well by the device completing a chain that it
    /// holds: the completion follows the others in the used ring and falls on
    /// the slot of none of them.
    #[verifier::rlimit(50)]
    proof fn lemma_completed(&self, pre: &SplitQueue, head: u16, len: u32, pos: int)
        requires
            self.moved(pre, head, Slot::Taken, Slot::Completed),
            pre.state@.taken.contains(head),
            self.state@ == pre.state@.complete(head, len),
            pos == pre.used_idx as nat % pre.size as nat,
            self.avail_ring == pre.avail_ring,
            self.used_ring@ == pre.used_ring@.update(pos, UsedElem { id: head as u32, len }),
            self.avail_idx == pre.avail_idx,
            self.used_idx == pre.used_idx.wrapping_add(1),
            self.last_used_idx == pre.last_used_idx,
            self.last_avail_idx == pre.last_avail_idx,
        ensures
            self.wf(),
    {
        self.lemma_moved(pre, head, Slot::Taken, Slot::Completed);
        self.lemma_kept_pending(pre, head, Slot::Taken, Slot::Completed);
        self.lemma_kept_returned(pre, head, Slot::Taken, Slot::Completed);
        let s0 = pre.state@;
        let s1 = self.state@;
        let size = pre.size as nat;
        lemma_remove_head(s0.taken, head);
        assert(self.wf_taken()) by {
            assert forall|k: int| 0 <= k < s1.taken.len() implies (#[trigger] s1.taken[k])
                < self.size && self.slot@[s1.taken[k] as int] == Slot::Taken by {
                assert(s0.taken.contains(s1.taken[k]));
                let j = choose|j: int| 0 <= j < s0.taken.len() && s0.taken[j] == s1.taken[k];
                assert(pre.slot@[s0.taken[j] as int] == Slot::Taken);
            }
            assert forall|h: u16|
                h < self.size && #[trigger] self.slot@[h as int] == Slot::Taken implies s1.taken.contains(
                h,
            ) by {
                assert(pre.slot@[h as int] == Slot::Taken);
                assert(s0.taken.contains(h));
            }
        }
        let heads0 = s0.completed_heads();
        let heads1 = s1.completed_heads();
        assert forall|k: int| 0 <= k < heads0.len() implies #[trigger] heads0[k] != head by {
            assert(pre.slot@[s0.completed[k].id as int] == Slot::Completed);
        }
        assert(heads1 =~= heads0.push(head));
        assert(heads1.no_duplicates());
        assert forall|i: int| 0 <= i < heads1.len() implies (#[trigger] heads1[i] as nat) < size by {
            if i < heads0.len() {
                assert(s0.completed[i].id < pre.size);
            }
        }
        lemma_distinct_slots(heads1, size);
        lemma_index_slot(s0.used, size);
        assert(self.wf_completed()) by {
            assert forall|k: int| 0 <= k < s1.completed.len() implies (#[trigger] s1.completed[k]).id
                < self.size && self.slot@[s1.completed[k].id as int] == Slot::Completed by {
                if k < s0.completed.len() {
                    assert(heads0[k] != head);
                    assert(pre.slot@[s0.completed[k].id as int] == Slot::Completed);
                }
            }
            assert forall|k: int| 0 <= k < s1.completed.len() implies self.used_ring@[slot_of(
                (s1.polled + k) as nat,
                self.size as nat,
            ) as int] == #[trigger] s1.completed[k] by {
                if k < s0.completed.len() {
                    lemma_slots_differ((s0.polled + k) as nat, s0.used, size);
                    lemma_index_slot((s0.polled + k) as nat, size);
                    assert(s0.completed[k] == s1.completed[k]);
                }
            }
        }
        assert(self.wf_counts());
    }

    /// Takes the oldest completion out of the used ring for the driver.
    ///
    /// Returns nothing, and leaves the queue as it is, where the device has
    /// written no completion that the driver has not yet polled. It never
    /// waits. The descriptor slots of the chain stay occupied until
    /// [`free_chain`](Self::free_chain) gives them back.
    #[verifier::rlimit(50)]
    pub fn poll_used(&mut self) -> (r: Option<UsedElem>)
        requires
            old(self).wf(),
        ensures
            final(self).wf(),
            final(self).used_ring() == old(self).used_ring(),
            final(self).desc_table() == old(self).desc_table(),
            final(self).avail_ring() == old(self).avail_ring(),
            final(self).spec_size() == old(self).spec_size(),
            final(self).indirect_negotiated() == old(self).indirect_negotiated(),
            old(self)@.completed.len() == 0 ==> r is None && final(self)@ == old(self)@,
            old(self)@.completed.len() > 0 ==> r == Some(old(self)@.completed[0]) && final(self)@
                == old(self)@.poll(),
    {
        if self.last_used_idx == self.used_idx {
            return None;
        }
        memory_barrier();
        let ghost pre = *self;
        let pos = mask_slot(self.last_used_idx, self.size);
        let elem = self.used_ring[pos];
        proof {
            lemma_index_slot(pre.state@.polled, pre.size as nat);
            assert(pre.state@.completed[0] == elem);
            assert(elem.id < pre.size);
        }
        self.slot.set(elem.id as usize, Slot::Returned);
        self.last_used_idx = self.last_used_idx.wrapping_add(1);
        proof {
            self.state = Ghost(pre.state@.poll());
            self.lemma_polled(&pre, elem.id as u16);
        }
        Some(elem)
    }

    /// The queue is kept well by the driver polling the oldest completion.
    #[verifier::rlimit(50)]
    proof fn lemma_polled(&self, pre: &SplitQueue, head: u16)
        requires
            self.moved(pre, head, Slot::Completed, Slot::Returned),
            pre.state@.completed.len() > 0,
            head == pre.state@.completed[0].id,
            self.state@ == pre.state@.poll(),
            self.avail_ring == pre.avail_ring,
            self.used_ring == pre.used_ring,
            self.avail_idx == pre.avail_idx,
            self.used_idx == pre.used_idx,
            self.last_used_idx == pre.last_used_idx.wrapping_add(1),
            self.last_avail_idx == pre.last_avail_idx,
        ensures
            self.wf(),
    {
        self.lemma_moved(pre, head, Slot::Completed, Slot::Returned);
        self.lemma_kept_pending(pre, head, Slot::Completed, Slot::Returned);
        self.lemma_kept_taken(pre, head, Slot::Completed, Slot::Returned);
        let s0 = pre.state@;
        let s1 = self.state@;
        let heads0 = s0.completed_heads();
        let heads1 = s1.completed_heads();
        assert(heads0[0] == head);
        assert forall|k: int| 0 <= k < heads1.len() implies #[trigger] heads1[k] == heads0[k + 1]
            && heads1[k] != head by {
            assert(s1.completed[k] == s0.completed[k + 1]);
        }
        assert(self.wf_completed()) by {
            assert forall|k: int| 0 <= k < s1.completed.len() implies (#[trigger] s1.completed[k]).id
                < self.size && self.slot@[s1.completed[k].id as int] == Slot::Completed
                && self.used_ring@[slot_of((s1.polled + k) as nat, self.size as nat) as int]
                == s1.completed[k] by {
                assert(s1.completed[k] == s0.completed[k + 1]);
                assert(heads1[k] != head);
                assert(pre.slot@[s0.completed[k + 1].id as int] == Slot::Completed);
            }
            assert(heads1.no_duplicates());
        }
        assert forall|k: int| 0 <= k < s0.returned.len() implies #[trigger] s0.returned[k]
            != head by {
            assert(pre.slot@[s0.returned[k] as int] == Slot::Returned);
        }
        assert(self.wf_returned()) by {
            assert(s1.returned.no_duplicates());
            assert forall|k: int| 0 <= k < s1.returned.len() implies (#[trigger] s1.returned[k])
                < self.size && self.slot@[s1.returned[k] as int] == Slot::Returned by {
                if k < s0.returned.len() {
                    assert(s0.returned[k] != head);
                    assert(pre.slot@[s0.returned[k] as int] == Slot::Returned);
                }
            }
            assert forall|h: u16|
                h < self.size && #[trigger] self.slot@[h as int] == Slot::Returned implies s1.returned.contains(
                h,
            ) by {
                if h == head {
                    assert(s1.returned[s0.returned.len() as int] == head);
                } else {
                    assert(pre.slot@[h as int] == Slot::Returned);
                    assert(s0.returned.contains(h));
                    let j = choose|j: int| 0 <= j < s0.returned.len() && s0.returned[j] == h;
                    assert(s1.returned[j] == h);
                }
            }
        }
        assert(self.wf_counts());
    }
}

/// Follows the chain of `head` through the descriptor table and returns
/// the slots that it occupies.
fn walk_slots(table: &Vec<Desc>, head: u16, Ghost(expected): Ghost<Seq<u16>>) -> (r: Vec<u16>)
    requires
        linked(table@, expected),
        expected[0] == head,
    ensures
        r@ == expected,
{
    let mut out: Vec<u16> = Vec::new();
    let mut at: u16 = head;
    loop
        invariant
            linked(table@, expected),
            out@.len() < expected.len(),
            at == expected[out@.len() as int],
            out@ == expected.subrange(0, out@.len() as int),
        decreases expected.len() - out@.len(),
    {
        let ghost i = out@.len() as int;
        out.push(at);
        let d = table[at as usize];
        assert(out@ =~= expected.subrange(0, i + 1));
        if !d.flags.next() {
            proof {
                if i < expected.len() - 1 {
                    assert(table@[expected[i] as int].flags.has_next());
                }
                assert(out@ =~= expected);
            }
            return out;
        }
        proof {
            if i == expected.len() - 1 {
                assert(expected.last() == expected[i]);
            }
        }
        at = d.next;
    }
}

/// Puts the slots `slots` back on the pool of free slots.
fn give_slots(free: &mut Vec<u16>, slots: &Vec<u16>)
    ensures
        final(free)@ == old(free)@ + slots@,
{
    let mut i: usize = 0;
    while i < slots.len()
        invariant
            i <= slots@.len(),
            free@ == old(free)@ + slots@.subrange(0, i as int),
        decreases slots@.len() - i,
    {
        free.push(slots[i]);
        i = i + 1;
        assert(free@ =~= old(free)@ + slots@.subrange(0, i as int));
    }
    assert(slots@.subrange(0, slots@.len() as int) =~= slots@);
}

impl SplitQueue {
    /// Gives the descriptor slots of the returned chain of `head` back to
    /// the pool of free slots, and returns how many they are.
    ///
    /// Fails with `MalformedChain`, and leaves the queue as it is, where
    /// `head` is not the head of a chain whose completion the driver has
    /// polled and whose slots it has not yet freed.
    #[verifier::rlimit(50)]
    pub fn free_chain(&mut self, head: u16) -> (r: Result<u16, Error>)
        requires
            old(self).wf(),
        ensures
            final(self).wf(),
            final(self).used_ring() == old(self).used_ring(),
            final(self).desc_table() == old(self).desc_table(),
            final(self).avail_ring() == old(self).avail_ring(),
            final(self).spec_size() == old(self).spec_size(),
            final(self).indirect_negotiated() == old(self).indirect_negotiated(),
            !old(self)@.returned.contains(head) ==> r == Err::<u16, Error>(Error::MalformedChain)
                && final(self)@ == old(self)@,
            old(self)@.returned.contains(head) ==> r == Ok::<u16, Error>(
                old(self)@.slots[head] as u16,
            ) && old(self)@.slots[head] <= old(self)@.size && final(self)@ == old(self)@.free(head),
    {
        if head >= self.size || self.slot[head as usize] != Slot::Returned {
            proof {
                if self.state@.returned.contains(head) {
                    let k = choose|k: int|
                        0 <= k < self.state@.returned.len() && self.state@.returned[k] == head;
                    assert(self.slot@[self.state@.returned[k] as int] == Slot::Returned);
                }
            }
            return Err(Error::MalformedChain);
        }
        let ghost pre = *self;
        proof {
            assert(pre.state@.returned.contains(head));
            assert(pre.is_head_slot(head));
            pre.lemma_chain_in_table(head);
            lemma_distinct_chain(&pre, head);
            assert(pre.wf_chain(head));
        }
        let slots = walk_slots(&self.desc, head, Ghost(pre.held@[head]));
        mark(&mut self.slot, &slots, Slot::Free, Slot::Free);
        give_slots(&mut self.free, &slots);
        self.side.set(head as usize, Vec::new());
        proof {
            self.state = Ghost(pre.state@.free(head));
            self.held = Ghost(pre.held@.remove(head));
            self.lemma_freed(&pre, head);
        }
        Ok(slots.len() as u16)
    }

    /// Whether `self` is `pre` after the slots of the returned chain of
    /// `head` were given back to the pool.
    spec fn freed(&self, pre: &SplitQueue, head: u16) -> bool {
        let sl = pre.held@[head];
        &&& pre.wf()
        &&& pre.state@.returned.contains(head)
        &&& self.size == pre.size
        &&& self.indirect == pre.indirect
        &&& self.desc == pre.desc
        &&& self.avail_ring == pre.avail_ring
        &&& self.used_ring == pre.used_ring
        &&& self.avail_idx == pre.avail_idx
        &&& self.used_idx == pre.used_idx
        &&& self.last_used_idx == pre.last_used_idx
        &&& self.last_avail_idx == pre.last_avail_idx
        &&& self.owner == pre.owner
        &&& self.free@ == pre.free@ + sl
        &&& self.side@.len() == pre.side@.len()
        &&& self.side@[head as int]@.len() == 0
        &&& forall|h: int|
            0 <= h < pre.size && h != head ==> #[trigger] self.side@[h] == pre.side@[h]
        &&& self.slot@.len() == pre.slot@.len()
        &&& forall|i: int| 0 <= i < sl.len() ==> self.slot@[(#[trigger] sl[i]) as int] == Slot::Free
        &&& forall|s: int|
            0 <= s < pre.slot@.len() && !sl.contains(s as u16) ==> #[trigger] self.slot@[s]
                == pre.slot@[s]
        &&& self.state@ == pre.state@.free(head)
        &&& self.held@ == pre.held@.remove(head)
    }

    /// Whether `self` differs from `pre` in slots of the chain of `head`
    /// only, which are free now.
    spec fn shrank(&self, pre: &SplitQueue, head: u16) -> bool {
        &&& head < pre.size
        &&& pre.slot@[head as int] == Slot::Returned
        &&& self.slot@[head as int] == Slot::Free
        &&& forall|s: int|
            0 <= s < pre.size && #[trigger] pre.slot@[s] != Slot::Link && s != head
                ==> self.slot@[s] == pre.slot@[s]
        &&& forall|s: int|
            0 <= s < pre.size && #[trigger] pre.slot@[s] == Slot::Link ==> self.slot@[s]
                == Slot::Link || self.slot@[s] == Slot::Free
        &&& forall|h: u16, j: int|
            pre.state@.chains.dom().contains(h) && h != head && 0 <= j < pre.held@[h].len()
                ==> self.slot@[(#[trigger] pre.held@[h][j]) as int] == pre.slot@[pre.held@[h][j] as int]
    }

    /// Freeing a chain changes the slots of that chain only, which no other
    /// chain shares.
    #[verifier::rlimit(50)]
    proof fn lemma_freed_shrank(&self, pre: &SplitQueue, head: u16)
        requires
            self.freed(pre, head),
        ensures
            self.shrank(pre, head),
            pre.held@[head].no_duplicates(),
            pre.state@.chains.dom().contains(head),
            pre.state@.slots[head] == pre.held@[head].len(),
            pre.held@[head].len() <= pre.size,
            forall|i: int|
                0 <= i < pre.held@[head].len() ==> (#[trigger] pre.held@[head][i]) < pre.size
                    && pre.slot@[pre.held@[head][i] as int] != Slot::Free,
    {
        let sl = pre.held@[head];
        let k = choose|k: int| 0 <= k < pre.state@.returned.len() && pre.state@.returned[k] == head;
        assert(pre.slot@[pre.state@.returned[k] as int] == Slot::Returned);
        assert(pre.is_head_slot(head));
        assert(pre.wf_chain(head));
        lemma_distinct_chain(pre, head);
        assert(sl[0] == head);
        assert(self.slot@[sl[0] as int] == Slot::Free);
        assert forall|i: int| 0 <= i < sl.len() implies (#[trigger] sl[i]) < pre.size
            && pre.slot@[sl[i] as int] != Slot::Free && (sl[i] == head || pre.slot@[sl[i] as int]
            == Slot::Link) by {
            if i > 0 {
                assert(pre.slot@[sl[i] as int] == Slot::Link);
            }
        }
        assert forall|s: int|
            0 <= s < pre.size && #[trigger] pre.slot@[s] != Slot::Link && s != head implies self.slot@[s]
            == pre.slot@[s] by {
            if sl.contains(s as u16) {
                let j = choose|j: int| 0 <= j < sl.len() && sl[j] == s as u16;
                assert(sl[j] == head || pre.slot@[sl[j] as int] == Slot::Link);
            }
        }
        assert forall|s: int|
            0 <= s < pre.size && #[trigger] pre.slot@[s] == Slot::Link implies self.slot@[s]
            == Slot::Link || self.slot@[s] == Slot::Free by {
            if sl.contains(s as u16) {
                let j = choose|j: int| 0 <= j < sl.len() && sl[j] == s as u16;
                assert(self.slot@[sl[j] as int] == Slot::Free);
            }
        }
        assert forall|h: u16, j: int|
            pre.state@.chains.dom().contains(h) && h != head && 0 <= j < pre.held@[h].len() implies self.slot@[(
        #[trigger] pre.held@[h][j]) as int] == pre.slot@[pre.held@[h][j] as int] by {
            assert(pre.wf_chain(h));
            let x = pre.held@[h][j];
            assert(pre.owner@[x] == (h, j));
            if sl.contains(x) {
                let i = choose|i: int| 0 <= i < sl.len() && sl[i] == x;
                assert(pre.owner@[sl[i]] == (head, i));
            }
        }
    }

    /// Freeing a chain keeps the tables, the pool and the counts well.
    #[verifier::rlimit(50)]
    proof fn lemma_freed_free(&self, pre: &SplitQueue, head: u16)
        requires
            self.freed(pre, head),
        ensures
            self.wf_tables(),
            self.wf_free(),
            self.wf_counts(),
    {
        self.lemma_freed_shrank(pre, head);
        let sl = pre.held@[head];
        assert forall|h: int|
            0 <= h < self.size && !(#[trigger] self.slot@[h]).is_head() implies self.side@[h]@.len()
            == 0 by {
            if h != head {
                assert(self.side@[h] == pre.side@[h]);
                if pre.slot@[h] != Slot::Link {
                    assert(self.slot@[h] == pre.slot@[h]);
                }
                assert(!pre.slot@[h].is_head());
            }
        }
        assert forall|i: int| 0 <= i < self.free@.len() implies (#[trigger] self.free@[i])
            < self.size && self.slot@[self.free@[i] as int] == Slot::Free by {
            if i < pre.free@.len() {
                assert(self.free@[i] == pre.free@[i]);
                assert(pre.slot@[pre.free@[i] as int] == Slot::Free);
            } else {
                assert(self.free@[i] == sl[i - pre.free@.len()]);
            }
        }
        assert(self.free@.no_duplicates()) by {
            assert forall|i: int, j: int|
                0 <= i < self.free@.len() && 0 <= j < self.free@.len() && i != j implies self.free@[i]
                != self.free@[j] by {
                let n = pre.free@.len() as int;
                if i < n {
                    assert(self.free@[i] == pre.free@[i]);
                    assert(pre.slot@[pre.free@[i] as int] == Slot::Free);
                } else {
                    assert(self.free@[i] == sl[i - n]);
                    assert(pre.slot@[sl[i - n] as int] != Slot::Free);
                }
                if j < n {
                    assert(self.free@[j] == pre.free@[j]);
                    assert(pre.slot@[pre.free@[j] as int] == Slot::Free);
                } else {
                    assert(self.free@[j] == sl[j - n]);
                    assert(pre.slot@[sl[j - n] as int] != Slot::Free);
                }
            }
        }
    }

    /// Freeing a chain keeps the other heads and their chains well.
    #[verifier::rlimit(50)]
    proof fn lemma_freed_heads(&self, pre: &SplitQueue, head: u16)
        requires
            self.freed(pre, head),
        ensures
            self.wf_heads(),
    {
        self.lemma_freed_shrank(pre, head);
        let s0 = pre.state@;
        let s1 = self.state@;
        assert forall|h: u16|
            #![trigger self.is_head_slot(h)]
            #![trigger s1.chains.dom().contains(h)]
            s1.chains.dom().contains(h) <==> self.is_head_slot(h) by {
            assert(s0.chains.dom().contains(h) <==> pre.is_head_slot(h));
            if h < self.size && h != head {
                if pre.slot@[h as int] != Slot::Link {
                    assert(self.slot@[h as int] == pre.slot@[h as int]);
                } else {
                    assert(!self.slot@[h as int].is_head());
                }
            }
        }
        assert forall|h: u16|
            s1.chains.dom().contains(h) <==> s1.slots.dom().contains(h) by {
            assert(s0.chains.dom().contains(h) <==> s0.slots.dom().contains(h));
        }
        assert forall|h: u16|
            s1.chains.dom().contains(h) <==> self.held@.dom().contains(h) by {
            assert(s0.chains.dom().contains(h) <==> pre.held@.dom().contains(h));
        }
        assert forall|h: u16| s1.chains.dom().contains(h) implies #[trigger] self.wf_chain(h) by {
            assert(pre.wf_chain(h));
            let sl = pre.held@[h];
            assert(self.side@[h as int] == pre.side@[h as int]);
            assert forall|i: int| 0 <= i < sl.len() implies (#[trigger] sl[i]) < self.size
                && self.owner@.dom().contains(sl[i]) && self.owner@[sl[i]] == (h, i) && (i > 0
                ==> self.slot@[sl[i] as int] == Slot::Link) by {
                assert(self.slot@[pre.held@[h][i] as int] == pre.slot@[pre.held@[h][i] as int]);
            }
        }
    }

    /// Freeing a chain keeps both rings well.
    #[verifier::rlimit(50)]
    proof fn lemma_freed_rings(&self, pre: &SplitQueue, head: u16)
        requires
            self.freed(pre, head),
        ensures
            self.wf_rings(),
    {
        self.lemma_freed_shrank(pre, head);
        let s0 = pre.state@;
        let s1 = self.state@;
        assert(self.wf_pending()) by {
            assert forall|k: int| 0 <= k < s0.pending.len() implies (#[trigger] s0.pending[k])
                < self.size && self.slot@[s0.pending[k] as int] == Slot::Pending by {
                assert(pre.slot@[s0.pending[k] as int] == Slot::Pending);
            }
        }
        assert(self.wf_taken()) by {
            assert forall|k: int| 0 <= k < s0.taken.len() implies (#[trigger] s0.taken[k])
                < self.size && self.slot@[s0.taken[k] as int] == Slot::Taken by {
                assert(pre.slot@[s0.taken[k] as int] == Slot::Taken);
            }
            assert forall|h: u16|
                h < self.size && #[trigger] self.slot@[h as int] == Slot::Taken implies s0.taken.contains(
                h,
            ) by {
                if pre.slot@[h as int] != Slot::Link {
                    assert(self.slot@[h as int] == pre.slot@[h as int]);
                }
            }
        }
        assert(self.wf_completed()) by {
            assert forall|k: int| 0 <= k < s0.completed.len() implies (#[trigger] s0.completed[k]).id
                < self.size && self.slot@[s0.completed[k].id as int] == Slot::Completed by {
                assert(pre.slot@[s0.completed[k].id as int] == Slot::Completed);
            }
        }
        lemma_remove_head(s0.returned, head);
        assert(self.wf_returned()) by {
            assert forall|k: int| 0 <= k < s1.returned.len() implies (#[trigger] s1.returned[k])
                < self.size && self.slot@[s1.returned[k] as int] == Slot::Returned by {
                assert(s0.returned.contains(s1.returned[k]));
                let j = choose|j: int| 0 <= j < s0.returned.len() && s0.returned[j] == s1.returned[k];
                assert(pre.slot@[s0.returned[j] as int] == Slot::Returned);
            }
            assert forall|h: u16|
                h < self.size && #[trigger] self.slot@[h as int] == Slot::Returned implies s1.returned.contains(
                h,
            ) by {
                if pre.slot@[h as int] != Slot::Link {
                    assert(self.slot@[h as int] == pre.slot@[h as int]);
                }
                assert(s0.returned.contains(h));
            }
        }
    }

    /// The queue is kept well by giving the slots of a returned chain back.
    proof fn lemma_freed(&self, pre: &SplitQueue, head: u16)
        requires
            self.freed(pre, head),
        ensures
            self.wf(),
    {
        self.lemma_freed_free(pre, head);
        self.lemma_freed_heads(pre, head);
        self.lemma_freed_rings(pre, head);
    }
}

impl SplitQueue {
    /// Publishes the chain of the side table `table` in the available ring,
    /// under one descriptor that is marked indirect and gives `table_addr`
    /// as the address of the table.
    ///
    /// Fails with `UnsupportedFeature` where indirect descriptors were not
    /// negotiated; else with `MalformedChain` where the table is longer than
    /// `MAX_CHAIN`, where any of its descriptors is marked indirect in turn,
    /// or where the chain from its first descriptor is broken; else with
    /// `QueueFull` where no descriptor slot is free. The queue is then as
    /// before, and neither the descriptor table nor the available ring is
    /// written. Else the head of the chain is returned. The chain may be
    /// longer than the queue: it takes one slot of the descriptor table.
    #[verifier::rlimit(50)]
    pub fn add_indirect(&mut self, table_addr: u64, table: Vec<Desc>) -> (r: Result<u16, Error>)
        requires
            old(self).wf(),
        ensures
            final(self).wf(),
            final(self).used_ring() == old(self).used_ring(),
            final(self).spec_size() == old(self).spec_size(),
            final(self).indirect_negotiated() == old(self).indirect_negotiated(),
            match old(self)@.add_indirect_refusal(old(self).indirect_negotiated(), table@) {
                Some(e) => r == Err::<u16, Error>(e) && final(self)@ == old(self)@
                    && final(self).desc_table() == old(self).desc_table()
                    && final(self).avail_ring() == old(self).avail_ring(),
                None => r is Ok && !old(self)@.chains.dom().contains(r->Ok_0) && final(self)@
                    == old(self)@.add(r->Ok_0, indirect_chain(table@)->0, 1) && final(self).avail_ring() == old(self).avail_ring().update(
                    slot_of(old(self)@.published, old(self)@.size) as int,
                    r->Ok_0,
                ) && final(self).side_table(r->Ok_0 as int) == table@,
            },
    {
        if !self.indirect {
            return Err(Error::UnsupportedFeature);
        }
        if table.len() > MAX_CHAIN {
            return Err(Error::MalformedChain);
        }
        let chain = match read_indirect(table.as_slice()) {
            Ok(chain) => chain,
            Err(e) => {
                return Err(e);
            },
        };
        if self.free.len() == 0 {
            return Err(Error::QueueFull);
        }
        let ghost pre = *self;
        let slots = take_slots(&mut self.free, 1);
        let head = slots[0];
        proof {
            assert(slots@[0] == pre.free@[pre.free@.len() - 1]);
            assert forall|i: int| 0 <= i < self.free@.len() implies !slots@.contains(
                #[trigger] self.free@[i],
            ) by {
                assert(self.free@[i] == pre.free@[i]);
            }
            assert(self.took(&pre, slots@));
            lemma_chain_nonempty(table@, 0, table@.len());
        }
        let len: u32 = (table.len() * 16) as u32;
        self.desc.set(
            head as usize,
            Desc { addr: table_addr, len, flags: DescF::new(false, false, true), next: 0 },
        );
        self.slot.set(head as usize, Slot::Pending);
        let ghost table_view = table@;
        self.side.set(head as usize, table);
        let pos = mask_slot(self.avail_idx, self.size);
        proof {
            lemma_index_slot(pre.state@.published, pre.size as nat);
        }
        self.avail_ring.set(pos, head);
        proof {
            self.lemma_staged_offered(&pre, slots@, chain@, pos as int, Some(table_view));
        }
        // The device is offered what it was offered before: only the write
        // of the index, after the barrier, hands the chain over.
        assert(self.offered() == pre.offered());
        memory_barrier();
        self.avail_idx = self.avail_idx.wrapping_add(1);
        proof {
            self.state = Ghost(pre.state@.add(head, chain@, 1));
            self.held = Ghost(pre.held@.insert(head, slots@));
            self.owner = Ghost(
                Map::new(
                    |s: u16| slots@.contains(s) || pre.owner@.dom().contains(s),
                    |s: u16|
                        if slots@.contains(s) {
                            (head, slots@.index_of(s))
                        } else {
                            pre.owner@[s]
                        },
                ),
            );
            assert forall|s: int|
                0 <= s < pre.desc@.len() && !slots@.contains(s as u16) implies #[trigger] self.desc@[s]
                == pre.desc@[s] by {
                if s == head as int {
                    assert(slots@[0] == s as u16);
                }
            }
            assert forall|s: int|
                0 <= s < pre.slot@.len() && !slots@.contains(s as u16) implies #[trigger] self.slot@[s]
                == pre.slot@[s] by {
                if s == head as int {
                    assert(slots@[0] == s as u16);
                }
            }
            self.lemma_added(&pre, slots@, chain@, pos as int, Some(table_view));
        }
        Ok(head)
    }
}

impl SplitQueue {
    /// The descriptor table as it lies in memory.
    pub closed spec fn desc_table(&self) -> Seq<Desc> {
        self.desc@
    }

    /// The entries of the available ring as they lie in memory.
    pub closed spec fn avail_ring(&self) -> Seq<u16> {
        self.avail_ring@
    }

    /// The entries of the used ring as they lie in memory.
    pub closed spec fn used_ring(&self) -> Seq<UsedElem> {
        self.used_ring@
    }

    /// The side table that the descriptor in slot `head` points to; empty
    /// where it points to none.
    pub closed spec fn side_table(&self, head: int) -> Seq<Desc> {
        self.side@[head]@
    }

    /// The memory holds what the state says: the available ring holds the
    /// pending heads from the device's cursor on, the used ring holds the
    /// completions from the driver's cursor on, and following a chain from
    /// its head through the descriptor table, or through the side table
    /// that its one descriptor points to, finds the spans of the chain.
    pub proof fn lemma_memory(&self)
        requires
            self.wf(),
        ensures
            self.desc_table().len() == self@.size,
            self.avail_ring().len() == self@.size,
            self.used_ring().len() == self@.size,
            forall|k: int|
                0 <= k < self@.pending.len() ==> self.avail_ring()[slot_of(
                    (self@.consumed + k) as nat,
                    self@.size,
                ) as int] == #[trigger] self@.pending[k],
            forall|k: int|
                0 <= k < self@.completed.len() ==> self.used_ring()[slot_of(
                    (self@.polled + k) as nat,
                    self@.size,
                ) as int] == #[trigger] self@.completed[k],
            forall|h: u16| #[trigger]
                self@.chains.dom().contains(h) ==> chain_at(
                    self.desc_table(),
                    h as int,
                    self.desc_table().len(),
                ) is Some && self@.chains[h] == (if self.desc_table()[h as int].flags.has_indirect() {
                    indirect_chain(self.side_table(h as int))->0
                } else {
                    buffers_of(chain_at(self.desc_table(), h as int, self.desc_table().len())->0)
                }),
    {
        assert forall|h: u16| #[trigger] self@.chains.dom().contains(h) implies chain_at(
            self.desc_table(),
            h as int,
            self.desc_table().len(),
        ) is Some && self@.chains[h] == (if self.desc_table()[h as int].flags.has_indirect() {
            indirect_chain(self.side_table(h as int))->0
        } else {
            buffers_of(chain_at(self.desc_table(), h as int, self.desc_table().len())->0)
        }) by {
            self.lemma_chain_in_table(h);
        }
    }

    /// The number of descriptor slots that no chain occupies.
    pub fn num_free(&self) -> (r: u16)
        requires
            self.wf(),
        ensures
            r == self@.num_free,
    {
        proof {
            lemma_distinct_slots(self.free@, self.size as nat);
        }
        self.free.len() as u16
    }

    /// The index that the driver shows in the available ring.
    pub fn avail_idx(&self) -> (r: u16)
        requires
            self.wf(),
        ensures
            r == self@.avail_idx(),
    {
        self.avail_idx
    }

    /// The index that the device shows in the used ring.
    pub fn used_idx(&self) -> (r: u16)
        requires
            self.wf(),
        ensures
            r == self@.used_idx(),
    {
        self.used_idx
    }

    /// The driver's cursor into the used ring.
    pub fn last_used_idx(&self) -> (r: u16)
        requires
            self.wf(),
        ensures
            r == self@.last_used_idx(),
    {
        self.last_used_idx
    }

    /// Whether indirect descriptors were negotiated.
    pub fn indirect(&self) -> (r: bool)
        ensures
            r == self.indirect_negotiated(),
    {
        self.indirect
    }

    /// The descriptor in slot `i` of the descriptor table, or nothing where
    /// the table has no such slot.
    pub fn desc(&self, i: u16) -> (r: Option<Desc>)
        requires
            self.wf(),
        ensures
            i < self.spec_size() ==> r == Some(self.desc_table()[i as int]),
            i >= self.spec_size() ==> r is None,
    {
        if i < self.size {
            Some(self.desc[i as usize])
        } else {
            None
        }
    }

    /// The entry in slot `i` of the available ring, or nothing where the
    /// ring has no such slot.
    pub fn avail(&self, i: u16) -> (r: Option<u16>)
        requires
            self.wf(),
        ensures
            i < self.spec_size() ==> r == Some(self.avail_ring()[i as int]),
            i >= self.spec_size() ==> r is None,
    {
        if i < self.size {
            Some(self.avail_ring[i as usize])
        } else {
            None
        }
    }

    /// The entry in slot `i` of the used ring, or nothing where the ring has
    /// no such slot.
    pub fn used(&self, i: u16) -> (r: Option<UsedElem>)
        requires
            self.wf(),
        ensures
            i < self.spec_size() ==> r == Some(self.used_ring()[i as int]),
            i >= self.spec_size() ==> r is None,
    {
        if i < self.size {
            Some(self.used_ring[i as usize])
        } else {
            None
        }
    }

    /// Decides for the driver whether to notify the device, after it has
    /// published chains since the index of the available ring was `old`,
    /// as the device's control asks.
    pub fn needs_notify(&self, device: &EventControl, old: u16) -> (r: bool)
        requires
            self.wf(),
        ensures
            r == device@.signals_split(old, self@.avail_idx()),
    {
        device.signal_split(old, self.avail_idx)
    }

    /// Decides for the device whether to interrupt the driver, after it has
    /// completed chains since the index of the used ring was `old`, as the
    /// driver's control asks.
    pub fn needs_interrupt(&self, driver: &EventControl, old: u16) -> (r: bool)
        requires
            self.wf(),
        ensures
            r == driver@.signals_split(old, self@.used_idx()),
    {
        driver.signal_split(old, self.used_idx)
    }
}

/// A chain that the available ring offers to the device.
pub struct Offer {
    /// The head that the ring names.
    pub head: u16,
    /// The spans of memory that the device finds for that head, if the
    /// chain is whole.
    pub chain: Option<Seq<Buffer>>,
}

impl SplitQueue {
    /// The slot of a ring that lies `k` entries after the 16-bit index
    /// `from`.
    spec fn entry(&self, from: u16, k: int) -> int {
        ((from + k) % 65536) % (self.size as int)
    }

    /// What the device can read of the queue: the chains that the available
    /// ring names between the device's cursor and the index of the ring,
    /// with what the descriptor table and the side tables hold for them.
    /// Nothing beyond that index is the device's to read.
    #[verifier::opaque]
    pub closed spec fn offered(&self) -> Seq<Offer> {
        Seq::new(
            index_distance(self.last_avail_idx, self.avail_idx) as nat,
            |k: int|
                {
                    let head = self.avail_ring@[self.entry(self.last_avail_idx, k)];
                    Offer {
                        head,
                        chain: resolve(self.desc@, self.side@[head as int]@, head as int),
                    }
                },
        )
    }

    /// What the driver can read of the completions: the entries of the used
    /// ring between the driver's cursor and the index of the ring.
    #[verifier::opaque]
    pub closed spec fn reported(&self) -> Seq<UsedElem> {
        Seq::new(
            index_distance(self.last_used_idx, self.used_idx) as nat,
            |k: int| self.used_ring@[self.entry(self.last_used_idx, k)],
        )
    }

    /// The entries between a cursor and an index fall on the slots of the
    /// running counts between those of the two.
    proof fn lemma_entry(&self, from: nat, k: int)
        requires
            is_split_size(self.size as nat),
            0 <= k <= self.size,
        ensures
            self.entry(index_of(from), k) == slot_of((from + k) as nat, self.size as nat),
            index_distance(index_of(from), index_of((from + k) as nat)) == k,
    {
        lemma_index_slot((from + k) as nat, self.size as nat);
    }

    /// What both sides can read is what the state says: the device is
    /// offered the pending chains, whole, and the driver is reported the
    /// completions that wait.
    #[verifier::rlimit(50)]
    pub proof fn lemma_offered(&self)
        requires
            self.wf(),
        ensures
            self.offered().len() == self@.pending.len(),
            forall|k: int|
                0 <= k < self@.pending.len() ==> #[trigger] self.offered()[k] == (Offer {
                    head: self@.pending[k],
                    chain: Some(self@.chains[self@.pending[k]]),
                }),
            self.reported() == self@.completed,
    {
        reveal(SplitQueue::offered);
        reveal(SplitQueue::reported);
        let s = self.state@;
        self.lemma_entry(s.consumed, s.pending.len() as int);
        self.lemma_entry(s.polled, s.completed.len() as int);
        assert forall|k: int| 0 <= k < s.pending.len() implies #[trigger] self.offered()[k] == (Offer {
            head: s.pending[k],
            chain: Some(s.chains[s.pending[k]]),
        }) by {
            self.lemma_entry(s.consumed, k);
            let h = s.pending[k];
            assert(self.is_head_slot(h));
            self.lemma_chain_in_table(h);
        }
        assert forall|k: int| 0 <= k < s.completed.len() implies self.reported()[k]
            == #[trigger] s.completed[k] by {
            self.lemma_entry(s.polled, k);
        }
        assert(self.reported() =~= s.completed);
    }

    /// While a slot of the descriptor table is free, the available ring is
    /// not full of pending heads.
    proof fn lemma_room_avail(&self, x: u16)
        requires
            self.wf(),
            x < self.size,
            self.slot@[x as int] == Slot::Free,
        ensures
            self.state@.pending.len() < self.size,
    {
        let s = self.state@;
        let more = s.pending.push(x);
        assert forall|k: int| 0 <= k < s.pending.len() implies #[trigger] s.pending[k] != x by {
            assert(self.slot@[s.pending[k] as int] == Slot::Pending);
        }
        assert(more.no_duplicates());
        assert forall|i: int| 0 <= i < more.len() implies (#[trigger] more[i] as nat)
            < self.size as nat by {
            if i < s.pending.len() {
                assert(s.pending[i] < self.size);
            }
        }
        lemma_distinct_slots(more, self.size as nat);
    }

    /// While the device holds a chain, the used ring is not full of
    /// completions that wait.
    proof fn lemma_room_used(&self, x: u16)
        requires
            self.wf(),
            x < self.size,
            self.slot@[x as int] == Slot::Taken,
        ensures
            self.state@.completed.len() < self.size,
    {
        let s = self.state@;
        let heads = s.completed_heads();
        let more = heads.push(x);
        assert forall|k: int| 0 <= k < heads.len() implies #[trigger] heads[k] != x by {
            assert(self.slot@[s.completed[k].id as int] == Slot::Completed);
        }
        assert(more.no_duplicates());
        assert forall|i: int| 0 <= i < more.len() implies (#[trigger] more[i] as nat)
            < self.size as nat by {
            if i < heads.len() {
                assert(s.completed[i].id < self.size);
            }
        }
        lemma_distinct_slots(more, self.size as nat);
    }

    /// Until the index of the available ring moves, the device is offered
    /// what it was offered before: the chain that was written is not yet
    /// its to read, and no chain that is has changed.
    #[verifier::rlimit(50)]
    proof fn lemma_staged_offered(
        &self,
        pre: &SplitQueue,
        slots: Seq<u16>,
        chain: Seq<Buffer>,
        pos: int,
        table: Option<Seq<Desc>>,
    )
        requires
            self.staged(pre, slots, chain, pos, table),
            self.avail_idx == pre.avail_idx,
        ensures
            self.offered() == pre.offered(),
    {
        reveal(SplitQueue::offered);
        let s = pre.state@;
        let size = pre.size as nat;
        assert(pre.slot@[slots[0] as int] == Slot::Free);
        pre.lemma_room_avail(slots[0]);
        pre.lemma_entry(s.consumed, s.pending.len() as int);
        lemma_index_slot(s.published, size);
        assert(self.offered().len() == pre.offered().len());
        assert forall|k: int| 0 <= k < pre.offered().len() implies self.offered()[k]
            == pre.offered()[k] by {
            pre.lemma_entry(s.consumed, k);
            lemma_slots_differ((s.consumed + k) as nat, s.published, size);
            assert(self.entry(self.last_avail_idx, k) == pre.entry(pre.last_avail_idx, k));
            let h = s.pending[k];
            assert(pre.avail_ring@[pre.entry(pre.last_avail_idx, k)] == h);
            assert(self.avail_ring@[self.entry(self.last_avail_idx, k)] == h);
            assert(pre.is_head_slot(h));
            assert(h != slots[0]);
            pre.lemma_chain_in_table(h);
            let sl = pre.held@[h];
            assert(pre.wf_chain(h));
            assert forall|i: int| 0 <= i < sl.len() implies self.desc@[(#[trigger] sl[i]) as int]
                == pre.desc@[sl[i] as int] by {
                if i > 0 {
                    assert(pre.slot@[sl[i] as int] == Slot::Link);
                }
                if slots.contains(sl[i]) {
                    let j = choose|j: int| 0 <= j < slots.len() && slots[j] == sl[i];
                    assert(pre.slot@[slots[j] as int] == Slot::Free);
                }
            }
            assert(linked(self.desc@, sl)) by {
                assert forall|i: int|
                    #![trigger sl[i]]
                    0 <= i < sl.len() - 1 implies self.desc@[sl[i] as int].flags.has_next()
                    && self.desc@[sl[i] as int].next == sl[i + 1] by {
                    assert(self.desc@[sl[i] as int] == pre.desc@[sl[i] as int]);
                }
                assert(self.desc@[sl[sl.len() - 1] as int] == pre.desc@[sl[sl.len() - 1] as int]);
            }
            lemma_distinct_chain(pre, h);
            lemma_linked_chain(self.desc@, sl, self.desc@.len());
            assert(descs_at(self.desc@, sl) =~= descs_at(pre.desc@, sl));
            assert(self.desc@[h as int] == pre.desc@[h as int]) by {
                assert(sl[0] == h);
            }
            assert(self.side@[h as int] == pre.side@[h as int]);
        }
        assert(self.offered() =~= pre.offered());
    }

    /// Until the index of the used ring moves, the driver is reported what
    /// it was reported before: the completion that was written is not yet
    /// its to read.
    #[verifier::rlimit(50)]
    proof fn lemma_staged_reported(&self, pre: &SplitQueue, head: u16, pos: int, elem: UsedElem)
        requires
            pre.wf(),
            head < pre.size,
            pre.slot@[head as int] == Slot::Taken,
            pos == pre.used_idx as nat % pre.size as nat,
            self.size == pre.size,
            self.used_ring@ == pre.used_ring@.update(pos, elem),
            self.used_idx == pre.used_idx,
            self.last_used_idx == pre.last_used_idx,
        ensures
            self.reported() == pre.reported(),
    {
        reveal(SplitQueue::reported);
        let s = pre.state@;
        let size = pre.size as nat;
        pre.lemma_room_used(head);
        pre.lemma_entry(s.polled, s.completed.len() as int);
        lemma_index_slot(s.used, size);
        assert forall|k: int| 0 <= k < pre.reported().len() implies self.reported()[k]
            == pre.reported()[k] by {
            pre.lemma_entry(s.polled, k);
            lemma_slots_differ((s.polled + k) as nat, s.used, size);
            assert(self.entry(self.last_used_idx, k) == pre.entry(pre.last_used_idx, k));
        }
        assert(self.reported() =~= pre.reported());
    }
}

impl SplitQueue {
    /// Resets the queue, as a device reset does: the tables are as those of
    /// a new queue of the same size, and whatever was in flight is gone.
    pub fn reset(&mut self)
        requires
            old(self).wf(),
        ensures
            final(self).wf(),
            final(self)@ == SplitState::init(old(self)@.size),
            final(self).spec_size() == old(self).spec_size(),
            final(self).indirect_negotiated() == old(self).indirect_negotiated(),
    {
        match SplitQueue::new(self.size, self.indirect) {
            Some(q) => {
                *self = q;
            },
            None => {},
        }
    }
}

impl SplitQueue {
    /// The bytes of the descriptor table as they lie in memory.
    pub fn desc_table_bytes(&self) -> (r: Vec<u8>)
        requires
            self.wf(),
        ensures
            r@ == table_layout(self.desc_table()),
    {
        table_bytes(self.desc.as_slice())
    }

    /// The bytes of the available ring as they lie in memory, with the
    /// flags and the event index that the driver's control asks for.
    pub fn avail_ring_bytes(&self, driver: &EventControl) -> (r: Vec<u8>)
        requires
            self.wf(),
        ensures
            r@ == avail_layout(
                if driver@.mode == RingEventFlags::Disable {
                    1u16
                } else {
                    0u16
                },
                self@.avail_idx(),
                self.avail_ring(),
                driver@.off,
            ),
    {
        avail_bytes(driver.split_flags(), self.avail_idx, self.avail_ring.as_slice(), driver.off())
    }

    /// The bytes of the used ring as they lie in memory, with the flags and
    /// the event index that the device's control asks for.
    pub fn used_ring_bytes(&self, device: &EventControl) -> (r: Vec<u8>)
        requires
            self.wf(),
        ensures
            r@ == used_layout(
                if device@.mode == RingEventFlags::Disable {
                    1u16
                } else {
                    0u16
                },
                self@.used_idx(),
                self.used_ring(),
                device@.off,
            ),
    {
        used_bytes(device.split_flags(), self.used_idx, self.used_ring.as_slice(), device.off())
    }
}

impl SplitQueue {
    /// Publishes the chains `chains` in the available ring, one after the
    /// other, all of them or none.
    ///
    /// Fails with `MalformedChain` where one of the chains is empty or
    /// longer than the queue, and with `QueueFull` where fewer descriptor
    /// slots are free than the chains have spans together; the queue is then
    /// as before, and neither the descriptor table nor the available ring is
    /// written. Else the heads of the chains are returned, in the order of
    /// the chains.
    #[verifier::rlimit(50)]
    pub fn add_all(&mut self, chains: &[Vec<Buffer>]) -> (r: Result<Vec<u16>, Error>)
        requires
            old(self).wf(),
        ensures
            final(self).wf(),
            final(self).used_ring() == old(self).used_ring(),
            final(self).spec_size() == old(self).spec_size(),
            final(self).indirect_negotiated() == old(self).indirect_negotiated(),
            match old(self)@.add_each_refusal(spans(chains@)) {
                Some(e) => r == Err::<Vec<u16>, Error>(e) && final(self)@ == old(self)@
                    && final(self).desc_table() == old(self).desc_table()
                    && final(self).avail_ring() == old(self).avail_ring(),
                None => r is Ok && r->Ok_0@.len() == chains@.len() && final(self)@
                    == old(self)@.add_each(r->Ok_0@, spans(chains@)),
            },
    {
        let ghost pre = *self;
        let ghost all = spans(chains@);
        proof {
            self.lemma_valid();
        }
        let free = self.num_free() as usize;
        let size = self.size as usize;
        let mut i: usize = 0;
        while i < chains.len()
            invariant
                i <= chains@.len(),
                all == spans(chains@),
                *self == pre,
                pre == *old(self),
                pre.wf(),
                size == pre@.size,
                forall|j: int| 0 <= j < i ==> 1 <= (#[trigger] all[j]).len() <= size,
            decreases chains@.len() - i,
        {
            let n = chains[i].len();
            if n == 0 || n > size {
                assert(all[i as int].len() == 0 || all[i as int].len() > size);
                return Err(Error::MalformedChain);
            }
            i = i + 1;
        }
        let mut total: usize = 0;
        let mut i: usize = 0;
        while i < chains.len()
            invariant
                i <= chains@.len(),
                all == spans(chains@),
                total == total_len(all.subrange(0, i as int)),
                total <= free,
                *self == pre,
                pre == *old(self),
                pre.wf(),
                free == pre@.num_free,
                free <= size,
                size == pre@.size,
                size <= 32768,
                !exists|j: int|
                    0 <= j < all.len() && ((#[trigger] all[j]).len() == 0 || all[j].len()
                        > pre@.size),
                forall|j: int| 0 <= j < all.len() ==> 1 <= (#[trigger] all[j]).len() <= size,
            decreases chains@.len() - i,
        {
            let n = chains[i].len();
            proof {
                let now = all.subrange(0, i + 1);
                assert(now.drop_last() =~= all.subrange(0, i as int));
                assert(now.last() == all[i as int]);
                lemma_total_len_prefix(all, i + 1);
            }
            if n > free - total {
                return Err(Error::QueueFull);
            }
            total = total + n;
            i = i + 1;
        }
        assert(all.subrange(0, all.len() as int) =~= all);
        let mut heads: Vec<u16> = Vec::new();
        let mut i: usize = 0;
        while i < chains.len()
            invariant
                i <= chains@.len(),
                all == spans(chains@),
                heads@.len() == i,
                self.wf(),
                self.used_ring() == pre.used_ring(),
                self.spec_size() == pre.spec_size(),
                self.indirect_negotiated() == pre.indirect_negotiated(),
                self@ == pre@.add_each(heads@, all.subrange(0, i as int)),
                pre == *old(self),
                pre@.add_each_refusal(all) is None,
                total_len(all) <= pre@.num_free,
                pre@.size == pre.spec_size(),
                forall|j: int| 0 <= j < all.len() ==> 1 <= (#[trigger] all[j]).len() <= pre@.size,
            decreases chains@.len() - i,
        {
            let ghost before = heads@;
            proof {
                let now = all.subrange(0, i + 1);
                assert(now.drop_last() =~= all.subrange(0, i as int));
                assert(now.last() == all[i as int]);
                lemma_total_len_prefix(all, i as int);
                lemma_total_len_prefix(all, i + 1);
                pre@.lemma_add_each_pending(before, all.subrange(0, i as int));
                pre@.lemma_add_each(before, all.subrange(0, i as int));
                assert(self@.add_refusal(all[i as int].len()) is None);
            }
            match self.add_buffer(chains[i].as_slice()) {
                Ok(head) => {
                    heads.push(head);
                },
                Err(_) => {
                    assert(false);
                },
            }
            i = i + 1;
            proof {
                assert(heads@.drop_last() =~= before);
            }
        }
        Ok(heads)
    }

    /// Takes the pending chains for the device, oldest first, and completes
    /// each at once, the first with the first length of `lens` and so on, as
    /// many as `lens` has lengths or as are pending. Returns their heads in
    /// that order.
    #[verifier::rlimit(50)]
    pub fn serve_all(&mut self, lens: &[u32]) -> (r: Vec<u16>)
        requires
            old(self).wf(),
        ensures
            final(self).wf(),
            final(self).desc_table() == old(self).desc_table(),
            final(self).avail_ring() == old(self).avail_ring(),
            final(self).spec_size() == old(self).spec_size(),
            final(self).indirect_negotiated() == old(self).indirect_negotiated(),
            r@.len() == vstd::math::min(lens@.len() as int, old(self)@.pending.len() as int),
            r@ == old(self)@.pending.subrange(0, r@.len() as int),
            final(self)@ == old(self)@.serve_each(r@, lens@.subrange(0, r@.len() as int)),
    {
        let ghost pre = *self;
        let mut heads: Vec<u16> = Vec::new();
        let mut i: usize = 0;
        assert(pre@.pending.subrange(0, pre@.pending.len() as int) =~= pre@.pending);
        while i < lens.len()
            invariant
                i <= lens@.len(),
                i <= pre@.pending.len(),
                heads@.len() == i,
                heads@ == pre@.pending.subrange(0, i as int),
                pre == *old(self),
                self.wf(),
                self.desc_table() == pre.desc_table(),
                self.avail_ring() == pre.avail_ring(),
                self.spec_size() == pre.spec_size(),
                self.indirect_negotiated() == pre.indirect_negotiated(),
                self@ == pre@.serve_each(heads@, lens@.subrange(0, i as int)),
                self@.pending == pre@.pending.subrange(i as int, pre@.pending.len() as int),
            decreases lens@.len() - i,
        {
            let ghost before = heads@;
            let ghost mid = self@;
            match self.pop_avail() {
                None => {
                    return heads;
                },
                Some((head, _)) => {
                    assert(self@.taken[self@.taken.len() - 1] == head);
                    assert(self@.taken.contains(head));
                    match self.push_used(head, lens[i]) {
                        Ok(()) => {},
                        Err(_) => {
                            assert(false);
                        },
                    }
                    heads.push(head);
                    proof {
                        let now = lens@.subrange(0, i + 1);
                        assert(now.drop_last() =~= lens@.subrange(0, i as int));
                        assert(now.last() == lens@[i as int]);
                        assert(heads@.drop_last() =~= before);
                        assert(heads@ =~= pre@.pending.subrange(0, i + 1));
                        assert(self@.pending =~= pre@.pending.subrange(
                            i + 1,
                            pre@.pending.len() as int,
                        ));
                        assert(self@ == mid.take().complete(head, lens@[i as int]));
                    }
                },
            }
            i = i + 1;
        }
        heads
    }

    /// Takes every completion that waits out of the used ring for the
    /// driver, oldest first.
    #[verifier::rlimit(50)]
    pub fn poll_all(&mut self) -> (r: Vec<UsedElem>)
        requires
            old(self).wf(),
        ensures
            final(self).wf(),
            final(self).used_ring() == old(self).used_ring(),
            final(self).desc_table() == old(self).desc_table(),
            final(self).avail_ring() == old(self).avail_ring(),
            final(self).spec_size() == old(self).spec_size(),
            final(self).indirect_negotiated() == old(self).indirect_negotiated(),
            r@ == old(self)@.completed,
            final(self)@ == old(self)@.poll_each(old(self)@.completed.len()),
            final(self)@.completed.len() == 0,
    {
        let ghost pre = *self;
        let mut out: Vec<UsedElem> = Vec::new();
        assert(pre@.completed.subrange(0, pre@.completed.len() as int) =~= pre@.completed);
        loop
            invariant
                out@.len() <= pre@.completed.len(),
                out@ == pre@.completed.subrange(0, out@.len() as int),
                pre == *old(self),
                self.wf(),
                self.used_ring() == pre.used_ring(),
                self.desc_table() == pre.desc_table(),
                self.avail_ring() == pre.avail_ring(),
                self.spec_size() == pre.spec_size(),
                self.indirect_negotiated() == pre.indirect_negotiated(),
                self@ == pre@.poll_each(out@.len()),
                self@.completed == pre@.completed.subrange(
                    out@.len() as int,
                    pre@.completed.len() as int,
                ),
            decreases pre@.completed.len() - out@.len(),
        {
            let ghost k = out@.len() as int;
            match self.poll_used() {
                None => {
                    assert(out@ =~= pre@.completed);
                    return out;
                },
                Some(elem) => {
                    out.push(elem);
                    proof {
                        assert(out@ =~= pre@.completed.subrange(0, k + 1));
                        assert(self@.completed =~= pre@.completed.subrange(
                            k + 1,
                            pre@.completed.len() as int,
                        ));
                    }
                },
            }
        }
    }
}

} // verus!
