//! The packed virtqueue: one ring of descriptors that both sides write in
//! place, with the driver's bookkeeping and a model of the device.
//!
//! [`PackedState`] says what a queue holds, apart from where it lies in
//! memory. [`PackedQueue`] keeps the ring as both sides see it and is
//! proved to follow that state. The device of the model uses the chains in
//! the order in which it took them.

use vstd::prelude::*;
use crate::barrier::memory_barrier;
use crate::error::Error;
use crate::event::EventControl;
use crate::pvirtq::{ring_bytes, ring_layout, Desc, DescF, avail_desc, used_desc};
use crate::ring::{slot_at, wrap_at, ring_off, lemma_near, lemma_origin, lemma_outside_span, lemma_inside_span, lemma_slot_in_ring, step, advance};
use crate::virtq::{Buffer, UsedElem};

verus! {

broadcast use lemma_slot_in_ring;

/// A chain that occupies slots of a packed ring.
pub struct PackedChain {
    /// The buffer ID of the chain: the slot in which its first descriptor
    /// was written.
    pub id: u16,
    /// The spans of memory of the chain, one for each slot that it
    /// occupies.
    pub bufs: Seq<Buffer>,
    /// How many descriptors the driver had made available before it wrote
    /// the chain.
    pub start: nat,
    /// The number of bytes that the device has written, once the chain has
    /// been used.
    pub written: u32,
}

/// Whether the chains `chains` lie one after the other in the ring, from the
/// running count `from` to the running count `to`.
pub open spec fn consecutive(chains: Seq<PackedChain>, from: nat, to: nat, size: nat) -> bool {
    &&& forall|j: int|
        0 <= j < chains.len() ==> (#[trigger] chains[j]).bufs.len() >= 1 && chains[j].id as int
            == slot_at(chains[j].start as int, size as int)
    &&& forall|j: int|
        #![trigger chains[j]]
        0 <= j < chains.len() - 1 ==> chains[j + 1].start == chains[j].start
            + chains[j].bufs.len()
    &&& if chains.len() == 0 {
        from == to
    } else {
        chains[0].start == from && chains.last().start + chains.last().bufs.len() == to
    }
}

/// What a packed virtqueue holds.
///
/// A chain is first pending, then taken by the device, then used, and at
/// last polled by the driver, which frees its slots. The four running
/// counts say how many descriptors have gone through each of these steps.
pub struct PackedState {
    /// The number of slots of the ring.
    pub size: nat,
    /// The chains that the driver has made available and the device has
    /// not yet taken, oldest first.
    pub pending: Seq<PackedChain>,
    /// The chains that the device has taken and not yet used, oldest first.
    pub taken: Seq<PackedChain>,
    /// The chains that the device has used and the driver has not yet
    /// polled, oldest first.
    pub completed: Seq<PackedChain>,
    /// How many descriptors the driver has made available so far.
    pub avail: nat,
    /// How many descriptors the device has taken so far.
    pub seen: nat,
    /// How many descriptors the device has used so far.
    pub used: nat,
    /// How many descriptors the driver has got back so far.
    pub polled: nat,
}

impl PackedState {
    /// The state of a new queue of `size` slots.
    pub open spec fn init(size: nat) -> PackedState {
        PackedState {
            size,
            pending: Seq::empty(),
            taken: Seq::empty(),
            completed: Seq::empty(),
            avail: 0,
            seen: 0,
            used: 0,
            polled: 0,
        }
    }

    /// The number of slots that no chain occupies.
    pub open spec fn num_free(self) -> nat {
        (self.size - (self.avail - self.polled)) as nat
    }

    /// The slot in which the driver writes next.
    pub open spec fn next_avail(self) -> int {
        slot_at(self.avail as int, self.size as int)
    }

    /// The wrap counter with which the driver writes next.
    pub open spec fn avail_wrap(self) -> bool {
        wrap_at(self.avail as int, self.size as int)
    }

    /// The slot in which the driver looks for the next completion.
    pub open spec fn next_used(self) -> int {
        slot_at(self.polled as int, self.size as int)
    }

    /// The wrap counter with which the driver looks for the next
    /// completion.
    pub open spec fn used_wrap(self) -> bool {
        wrap_at(self.polled as int, self.size as int)
    }

    /// What holds of the state of every queue.
    pub open spec fn valid(self) -> bool {
        &&& 1 <= self.size <= 65535
        &&& self.polled <= self.used <= self.seen <= self.avail <= self.polled + self.size
        &&& consecutive(self.completed, self.polled, self.used, self.size)
        &&& consecutive(self.taken, self.used, self.seen, self.size)
        &&& consecutive(self.pending, self.seen, self.avail, self.size)
    }

    /// Why a chain of `n` descriptors cannot be added, if it cannot: it
    /// is empty or longer than the ring, or more slots are asked for than
    /// are free.
    pub open spec fn add_refusal(self, n: nat) -> Option<Error> {
        if n == 0 || n > self.size {
            Some(Error::MalformedChain)
        } else if n > self.num_free() {
            Some(Error::QueueFull)
        } else {
            None
        }
    }

    /// The chain that the driver writes next for the spans `chain`.
    pub open spec fn next_chain(self, chain: Seq<Buffer>) -> PackedChain {
        PackedChain { id: self.next_avail() as u16, bufs: chain, start: self.avail, written: 0 }
    }

    /// The state after the driver has made `chain` available.
    pub open spec fn add(self, chain: Seq<Buffer>) -> PackedState {
        PackedState {
            pending: self.pending.push(self.next_chain(chain)),
            avail: self.avail + chain.len(),
            ..self
        }
    }

    /// The state after the device has taken the oldest pending chain.
    pub open spec fn take(self) -> PackedState
        recommends
            self.pending.len() > 0,
    {
        PackedState {
            pending: self.pending.drop_first(),
            taken: self.taken.push(self.pending[0]),
            seen: self.seen + self.pending[0].bufs.len(),
            ..self
        }
    }

    /// The state after the device has used the oldest chain that it had
    /// taken, with `len` bytes written.
    pub open spec fn complete(self, len: u32) -> PackedState
        recommends
            self.taken.len() > 0,
    {
        PackedState {
            taken: self.taken.drop_first(),
            completed: self.completed.push(PackedChain { written: len, ..self.taken[0] }),
            used: self.used + self.taken[0].bufs.len(),
            ..self
        }
    }

    /// The state after the driver has polled the oldest completion.
    pub open spec fn poll(self) -> PackedState
        recommends
            self.completed.len() > 0,
    {
        PackedState {
            completed: self.completed.drop_first(),
            polled: self.polled + self.completed[0].bufs.len(),
            ..self
        }
    }
}

impl PackedState {
    /// A chain that is made available in a queue in which nothing waits is
    /// the one that the device takes next, and once the device has used
    /// it, the driver polls exactly one completion, which names the buffer
    /// ID under which the chain was added and the length that the device
    /// gave.
    pub proof fn lemma_round_trip(self, chain: Seq<Buffer>, len: u32)
        requires
            self.pending.len() == 0,
            self.taken.len() == 0,
            self.completed.len() == 0,
        ensures
            ({
                let added = self.add(chain);
                let taken = added.take();
                let done = taken.complete(len);
                let polled = done.poll();
                &&& added.pending.len() == 1
                &&& added.pending[0].id == self.next_avail() as u16
                &&& added.pending[0].bufs == chain
                &&& taken.pending.len() == 0
                &&& taken.taken.len() == 1
                &&& taken.taken[0].bufs == chain
                &&& done.completed.len() == 1
                &&& done.completed[0].id == self.next_avail() as u16
                &&& done.completed[0].written == len
                &&& polled.completed.len() == 0
                &&& polled.polled == self.polled + chain.len()
            }),
    {
    }

    /// A lap on, a running count falls on the same slot, with the wrap
    /// counter toggled.
    pub proof fn lemma_lap(count: nat, size: nat)
        requires
            size > 0,
        ensures
            slot_at((count + size) as int, size as int) == slot_at(count as int, size as int),
            wrap_at((count + size) as int, size as int) == !wrap_at(count as int, size as int),
    {
        lemma_near(count as int, (count + size) as int, size as int);
    }

    /// The descriptors of the chains in flight lie in different slots of
    /// the ring: a slot is written again only after the driver has got back
    /// the chain that lay in it.
    pub proof fn lemma_no_alias(self, t1: int, t2: int)
        requires
            self.valid(),
            self.polled <= t1 < t2 < self.avail,
        ensures
            slot_at(t1, self.size as int) != slot_at(t2, self.size as int),
    {
        lemma_near(t1, t2, self.size as int);
    }

    /// Making a chain of `n` descriptors available moves the driver's
    /// cursor `n` slots on, round the end of the ring, and toggles its wrap
    /// counter where, and only where, the cursor comes round to the start.
    pub proof fn lemma_add_cursor(self, chain: Seq<Buffer>)
        requires
            self.valid(),
            self.add_refusal(chain.len()) is None,
        ensures
            0 <= self.next_avail() < self.size,
            self.add(chain).next_avail() == (if self.next_avail() + chain.len() < self.size {
                self.next_avail() + chain.len()
            } else {
                self.next_avail() + chain.len() - self.size
            }),
            self.add(chain).avail_wrap() == (if self.next_avail() + chain.len() < self.size {
                self.avail_wrap()
            } else {
                !self.avail_wrap()
            }),
            self.add(chain).num_free() == self.num_free() - chain.len(),
    {
        lemma_near(self.avail as int, (self.avail + chain.len()) as int, self.size as int);
    }

    /// Polling a completion moves the driver's cursor for used descriptors
    /// as many slots on as the chain had descriptors, round the end of the
    /// ring, and toggles its wrap counter where, and only where, the cursor
    /// comes round to the start.
    pub proof fn lemma_poll_cursor(self)
        requires
            self.valid(),
            self.completed.len() > 0,
        ensures
            0 <= self.next_used() < self.size,
            self.poll().next_used() == (if self.next_used() + self.completed[0].bufs.len()
                < self.size {
                self.next_used() + self.completed[0].bufs.len()
            } else {
                self.next_used() + self.completed[0].bufs.len() - self.size
            }),
            self.poll().used_wrap() == (if self.next_used() + self.completed[0].bufs.len()
                < self.size {
                self.used_wrap()
            } else {
                !self.used_wrap()
            }),
    {
        lemma_within(self.completed, self.polled, self.used, self.size, 0);
        lemma_near(
            self.polled as int,
            (self.polled + self.completed[0].bufs.len()) as int,
            self.size as int,
        );
    }

    /// Once the driver has polled a completion, a chain of as many
    /// descriptors as that chain had can be added.
    pub proof fn lemma_poll_makes_room(self)
        requires
            self.valid(),
            self.completed.len() > 0,
        ensures
            self.poll().num_free() == self.num_free() + self.completed[0].bufs.len(),
            self.poll().add_refusal(self.completed[0].bufs.len()) is None,
    {
        lemma_within(self.completed, self.polled, self.used, self.size, 0);
    }
}

/// A chain that the device has taken and not yet used.
#[derive(Clone, Copy, Debug, PartialEq, Eq, Structural)]
pub struct Held {
    /// The buffer ID of the chain.
    pub id: u16,
    /// The number of slots that the chain occupies.
    pub slots: u16,
}

/// A packed virtqueue of a negotiated size.
///
/// It holds the descriptor ring as it lies in the memory that driver and
/// device share; the driver's cursors with their wrap counters, its count of
/// free slots and the length of each chain in flight; and the device's
/// cursors with their wrap counters and the chains that it has taken.
pub struct PackedQueue {
    size: u16,
    ring: Vec<Desc>,
    next_avail: u16,
    avail_wrap: bool,
    next_used: u16,
    used_wrap: bool,
    num_free: u16,
    chain_len: Vec<u16>,
    dev_avail: u16,
    dev_avail_wrap: bool,
    dev_used: u16,
    dev_used_wrap: bool,
    dev_held: Vec<Held>,
    state: Ghost<PackedState>,
}

impl PackedQueue {
    /// What the queue holds.
    pub closed spec fn view(&self) -> PackedState {
        self.state@
    }

    /// The number of slots of the ring.
    pub closed spec fn spec_size(&self) -> u16 {
        self.size
    }

    /// The number of slots of the ring.
    #[verifier::when_used_as_spec(spec_size)]
    pub fn size(&self) -> (r: u16)
        ensures
            r == self.spec_size(),
    {
        self.size
    }

    /// The number of slots of the ring, as a plain integer.
    spec fn sz(&self) -> int {
        self.size as int
    }

    /// The descriptor in the slot that the running count `t` falls on.
    spec fn at(&self, t: int) -> Desc {
        self.ring@[slot_at(t, self.sz())]
    }

    /// The sizes are the negotiated ones, the state is valid, and each cursor
    /// and wrap counter stands where its running count says.
    spec fn wf_cursors(&self) -> bool {
        let s = self.state@;
        &&& 1 <= self.size <= 65535
        &&& s.size == self.size
        &&& self.ring@.len() == self.size
        &&& self.chain_len@.len() == self.size
        &&& s.valid()
        &&& self.num_free == s.size - (s.avail - s.polled)
        &&& self.next_avail == slot_at(s.avail as int, self.sz())
        &&& self.avail_wrap == wrap_at(s.avail as int, self.sz())
        &&& self.next_used == slot_at(s.polled as int, self.sz())
        &&& self.used_wrap == wrap_at(s.polled as int, self.sz())
        &&& self.dev_avail == slot_at(s.seen as int, self.sz())
        &&& self.dev_avail_wrap == wrap_at(s.seen as int, self.sz())
        &&& self.dev_used == slot_at(s.used as int, self.sz())
        &&& self.dev_used_wrap == wrap_at(s.used as int, self.sz())
    }

    /// The two ownership marks in the ring: the first is that of the lap in
    /// which the driver wrote the slot last, and the second differs from it
    /// where the device has not yet used the descriptor.
    spec fn wf_marks(&self) -> bool {
        let s = self.state@;
        &&& forall|t: int|
            s.avail - self.size <= t < s.avail ==> (#[trigger] self.at(t)).flags.avail_mark()
                == wrap_at(t, self.sz())
        &&& forall|t: int|
            s.used <= t < s.avail ==> (#[trigger] self.at(t)).flags.used_mark() == !wrap_at(
                t,
                self.sz(),
            )
    }

    /// Whether the descriptors of the pending chain `c` lie in the ring.
    spec fn laid(&self, c: PackedChain) -> bool {
        forall|t: int|
            c.start <= t < c.start + c.bufs.len() ==> #[trigger] self.at(t) == avail_desc(
                c.bufs[t - c.start],
                c.id,
                t + 1 < c.start + c.bufs.len(),
                wrap_at(t, self.sz()),
            )
    }

    /// Whether the completion of the used chain `c` lies in the ring.
    spec fn returned(&self, c: PackedChain) -> bool {
        self.at(c.start as int) == used_desc(c.id, c.written, wrap_at(c.start as int, self.sz()))
    }

    /// Whether the driver knows how many slots the chain `c` occupies.
    spec fn counted(&self, c: PackedChain) -> bool {
        self.chain_len@[c.id as int] == c.bufs.len()
    }

    /// The chains in flight lie in the ring as the state says, the driver
    /// knows how many slots each of them has, and the device's record of the
    /// chains that it has taken is that of the state.
    spec fn wf_chains(&self) -> bool {
        let s = self.state@;
        &&& forall|j: int| 0 <= j < s.pending.len() ==> self.laid(#[trigger] s.pending[j])
        &&& forall|j: int| 0 <= j < s.pending.len() ==> self.counted(#[trigger] s.pending[j])
        &&& forall|j: int| 0 <= j < s.taken.len() ==> self.counted(#[trigger] s.taken[j])
        &&& forall|j: int| 0 <= j < s.completed.len() ==> self.counted(#[trigger] s.completed[j])
        &&& forall|j: int| 0 <= j < s.completed.len() ==> self.returned(#[trigger] s.completed[j])
        &&& self.dev_held@.len() == s.taken.len()
        &&& forall|j: int|
            0 <= j < s.taken.len() ==> (#[trigger] self.dev_held@[j]).id == s.taken[j].id
                && self.dev_held@[j].slots == s.taken[j].bufs.len()
    }

    /// What every operation keeps: the cursors and wrap counters stand
    /// where the running counts say, the ownership marks in the ring are
    /// those of the laps in which the slots were written, and the chains in
    /// flight lie in the ring as the state says.
    pub closed spec fn wf(&self) -> bool {
        &&& self.wf_cursors()
        &&& self.wf_marks()
        &&& self.wf_chains()
    }

    /// A queue that is kept well holds a valid state.
    pub proof fn lemma_valid(&self)
        requires
            self.wf(),
        ensures
            self@.valid(),
            self@.size == self.spec_size(),
    {
    }

    /// A new queue of `size` slots, or nothing where `size` is 0. The size
    /// need not be a power of two.
    pub fn new(size: u16) -> (r: Option<PackedQueue>)
        ensures
            size >= 1 <==> r is Some,
            r matches Some(q) ==> q.wf() && q@ == PackedState::init(size as nat) && q.spec_size()
                == size,
    {
        if size == 0 {
            return None;
        }
        let n = size as usize;
        let mut ring: Vec<Desc> = Vec::new();
        let mut chain_len: Vec<u16> = Vec::new();
        let mut i: usize = 0;
        while i < n
            invariant
                i <= n,
                ring@.len() == i,
                chain_len@.len() == i,
                forall|j: int|
                    0 <= j < i ==> !(#[trigger] ring@[j]).flags.avail_mark()
                        && !ring@[j].flags.used_mark(),
            decreases n - i,
        {
            ring.push(Desc { addr: 0, len: 0, id: 0, flags: DescF::new(false, false, false, false, false) });
            chain_len.push(0);
            i = i + 1;
        }
        let q = PackedQueue {
            size,
            ring,
            next_avail: 0,
            avail_wrap: true,
            next_used: 0,
            used_wrap: true,
            num_free: size,
            chain_len,
            dev_avail: 0,
            dev_avail_wrap: true,
            dev_used: 0,
            dev_used_wrap: true,
            dev_held: Vec::new(),
            state: Ghost(PackedState::init(size as nat)),
        };
        proof {
            lemma_origin(size as int);
            assert forall|t: int| 0 - size <= t < 0 implies (#[trigger] q.at(t)).flags.avail_mark()
                == wrap_at(t, q.sz()) by {
                lemma_near(t, 0, size as int);
            }
            assert(q.wf_cursors());
            assert(q.wf_marks());
            assert(q.wf_chains());
        }
        Some(q)
    }
}

/// Chains that lie one after the other from `from` to `to` lie between
/// the two, each before the ones after it.
pub proof fn lemma_within(chains: Seq<PackedChain>, from: nat, to: nat, size: nat, j: int)
    requires
        consecutive(chains, from, to, size),
        0 <= j < chains.len(),
    ensures
        from <= chains[j].start,
        chains[j].start + chains[j].bufs.len() <= to,
        from + j <= chains[j].start,
        chains[j].start + chains[j].bufs.len() + (chains.len() - 1 - j) <= to,
{
    lemma_after(chains, from, to, size, j);
    lemma_before(chains, from, to, size, j);
}

/// The chain at `j` starts at least `j` descriptors after the first.
proof fn lemma_after(chains: Seq<PackedChain>, from: nat, to: nat, size: nat, j: int)
    requires
        consecutive(chains, from, to, size),
        0 <= j < chains.len(),
    ensures
        from + j <= chains[j].start,
    decreases j,
{
    if j > 0 {
        lemma_after(chains, from, to, size, j - 1);
        assert(chains[j - 1].bufs.len() >= 1);
        assert(chains[j - 1 + 1].start == chains[j - 1].start + chains[j - 1].bufs.len());
    }
}

/// The chain at `j` ends at least as many descriptors before the last as
/// chains follow it.
proof fn lemma_before(chains: Seq<PackedChain>, from: nat, to: nat, size: nat, j: int)
    requires
        consecutive(chains, from, to, size),
        0 <= j < chains.len(),
    ensures
        chains[j].start + chains[j].bufs.len() + (chains.len() - 1 - j) <= to,
    decreases chains.len() - j,
{
    if j < chains.len() - 1 {
        lemma_before(chains, from, to, size, j + 1);
        assert(chains[j + 1].bufs.len() >= 1);
        assert(chains[j + 1].start == chains[j].start + chains[j].bufs.len());
    }
}

/// Writes the descriptors of `chain` but the first into the ring, into the
/// slots after slot `pos`, each marked available for the lap of its slot.
/// The slot `pos` itself, in which the first descriptor belongs, is left as
/// it is: until that is written the device does not find the chain.
#[verifier::rlimit(50)]
fn write_tail(
    ring: &mut Vec<Desc>,
    pos: u16,
    wrap: bool,
    chain: &[Buffer],
    id: u16,
    size: u16,
    Ghost(count): Ghost<int>,
) -> (r: (u16, bool))
    requires
        1 <= size,
        old(ring)@.len() == size,
        1 <= chain@.len() <= size,
        pos == slot_at(count, size as int),
        wrap == wrap_at(count, size as int),
    ensures
        final(ring)@.len() == size,
        final(ring)@[pos as int] == old(ring)@[pos as int],
        forall|t: int|
            count + 1 <= t < count + chain@.len() ==> #[trigger] final(ring)@[slot_at(
                t,
                size as int,
            )] == avail_desc(
                chain@[t - count],
                id,
                t + 1 < count + chain@.len(),
                wrap_at(t, size as int),
            ),
        forall|s: int|
            0 <= s < size && ring_off(s, pos as int, size as int) >= chain@.len()
                ==> #[trigger] final(ring)@[s] == old(ring)@[s],
        r.0 == slot_at(count + chain@.len(), size as int),
        r.1 == wrap_at(count + chain@.len(), size as int),
{
    let n = chain.len();
    let first = step(pos, wrap, size, Ghost(count));
    let mut p: u16 = first.0;
    let mut w: bool = first.1;
    let mut m: usize = 1;
    while m < n
        invariant
            1 <= m <= n,
            n == chain@.len(),
            1 <= size,
            n <= size,
            ring@.len() == size,
            pos == slot_at(count, size as int),
            p == slot_at(count + m, size as int),
            w == wrap_at(count + m, size as int),
            forall|t: int|
                count + 1 <= t < count + m ==> #[trigger] ring@[slot_at(t, size as int)]
                    == avail_desc(
                    chain@[t - count],
                    id,
                    t + 1 < count + chain@.len(),
                    wrap_at(t, size as int),
                ),
            forall|s: int|
                0 <= s < size && (ring_off(s, pos as int, size as int) >= m || s == pos)
                    ==> #[trigger] ring@[s] == old(ring)@[s],
        decreases n - m,
    {
        let b = chain[m];
        let ghost before = ring@;
        proof {
            lemma_inside_span(count + m, count, n as int, size as int);
        }
        ring.set(
            p as usize,
            Desc { addr: b.addr, len: b.len, id, flags: DescF::new(m + 1 < n, b.write, false, w, !w) },
        );
        proof {
            assert forall|t: int| count + 1 <= t < count + m + 1 implies #[trigger] ring@[slot_at(
                t,
                size as int,
            )] == avail_desc(
                chain@[t - count],
                id,
                t + 1 < count + chain@.len(),
                wrap_at(t, size as int),
            ) by {
                lemma_inside_span(t, count, n as int, size as int);
                if t < count + m {
                    assert(before[slot_at(t, size as int)] == avail_desc(
                        chain@[t - count],
                        id,
                        t + 1 < count + chain@.len(),
                        wrap_at(t, size as int),
                    ));
                }
            }
        }
        let next = step(p, w, size, Ghost(count + m));
        p = next.0;
        w = next.1;
        m = m + 1;
    }
    (p, w)
}

impl PackedQueue {
    /// Makes `chain` available to the device, one descriptor for each of
    /// its spans, in the slots that follow the last chain.
    ///
    /// Fails with `MalformedChain` where the chain is empty or longer than
    /// the ring, and with `QueueFull` where fewer slots are free than it has
    /// spans; the queue is then as before, and nothing in the ring is
    /// overwritten. Else the buffer ID of the chain
    /// is returned, which is the slot of its first descriptor. That
    /// descriptor is written last, with the ownership marks of the current
    /// wrap counter, and the wrap counter is toggled where the ring ends.
    #[verifier::rlimit(50)]
    pub fn add_buffer(&mut self, chain: &[Buffer]) -> (r: Result<u16, Error>)
        requires
            old(self).wf(),
        ensures
            final(self).wf(),
            final(self).spec_size() == old(self).spec_size(),
            match old(self)@.add_refusal(chain@.len()) {
                Some(e) => r == Err::<u16, Error>(e) && final(self)@ == old(self)@ 
                    && final(self).ring() == old(self).ring(),
                None => r == Ok::<u16, Error>(old(self)@.next_avail() as u16) && final(self)@
                    == old(self)@.add(chain@),
            },
    {
        let n = chain.len();
        if n == 0 || n > self.size as usize {
            return Err(Error::MalformedChain);
        }
        if n > self.num_free as usize {
            return Err(Error::QueueFull);
        }
        let ghost pre = *self;
        let ghost a = pre.state@.avail as int;
        let id = self.next_avail;
        let next = write_tail(
            &mut self.ring,
            self.next_avail,
            self.avail_wrap,
            chain,
            id,
            self.size,
            Ghost(a),
        );
        proof {
            // The device finds at its cursor what it found before: the chain
            // is not yet its to read.
            if pre.state@.seen < pre.state@.avail {
                lemma_outside_span(pre.state@.seen as int, a, n as int, pre.sz());
            }
        }
        assert(self.ring@[self.dev_avail as int] == pre.ring@[pre.dev_avail as int]);
        let ghost tail = self.ring@;
        let first = chain[0];
        memory_barrier();
        self.ring.set(
            id as usize,
            Desc {
                addr: first.addr,
                len: first.len,
                id,
                flags: DescF::new(1 < n, first.write, false, self.avail_wrap, !self.avail_wrap),
            },
        );
        proof {
            assert forall|t: int| a <= t < a + n implies #[trigger] self.ring@[slot_at(t, pre.sz())]
                == avail_desc(chain@[t - a], id, t + 1 < a + n, wrap_at(t, pre.sz())) by {
                lemma_inside_span(t, a, n as int, pre.sz());
                if t > a {
                    assert(tail[slot_at(t, pre.sz())] == avail_desc(
                        chain@[t - a],
                        id,
                        t + 1 < a + n,
                        wrap_at(t, pre.sz()),
                    ));
                }
            }
        }
        self.chain_len.set(id as usize, n as u16);
        self.num_free = self.num_free - n as u16;
        self.next_avail = next.0;
        self.avail_wrap = next.1;
        proof {
            self.state = Ghost(pre.state@.add(chain@));
            self.lemma_added(&pre, chain@);
        }
        Ok(id)
    }

    /// Whether `self` is `pre` after the driver has made `chain` available.
    spec fn added(&self, pre: &PackedQueue, chain: Seq<Buffer>) -> bool {
        let a = pre.state@.avail as int;
        let n = chain.len() as int;
        &&& pre.wf()
        &&& pre.state@.add_refusal(chain.len()) is None
        &&& self.state@ == pre.state@.add(chain)
        &&& self.size == pre.size
        &&& self.next_used == pre.next_used
        &&& self.used_wrap == pre.used_wrap
        &&& self.dev_avail == pre.dev_avail
        &&& self.dev_avail_wrap == pre.dev_avail_wrap
        &&& self.dev_used == pre.dev_used
        &&& self.dev_used_wrap == pre.dev_used_wrap
        &&& self.dev_held == pre.dev_held
        &&& self.num_free == pre.num_free - n
        &&& self.next_avail == slot_at(a + n, pre.sz())
        &&& self.avail_wrap == wrap_at(a + n, pre.sz())
        &&& self.chain_len@ == pre.chain_len@.update(pre.next_avail as int, n as u16)
        &&& self.ring@.len() == pre.ring@.len()
        &&& forall|t: int|
            a <= t < a + n ==> #[trigger] self.ring@[slot_at(t, pre.sz())] == avail_desc(
                chain[t - a],
                pre.next_avail,
                t + 1 < a + n,
                wrap_at(t, pre.sz()),
            )
        &&& forall|s: int|
            0 <= s < pre.size && ring_off(s, pre.next_avail as int, pre.sz()) >= n
                ==> #[trigger] self.ring@[s] == pre.ring@[s]
    }

    /// What lay in the ring less than a lap before the end of the new chain
    /// lies there still.
    #[verifier::rlimit(50)]
    proof fn lemma_added_frame(&self, pre: &PackedQueue, chain: Seq<Buffer>)
        requires
            self.added(pre, chain),
        ensures
            forall|t: int|
                pre.state@.avail + chain.len() - pre.size <= t < pre.state@.avail
                    ==> #[trigger] self.at(t) == pre.at(t) && slot_at(t, pre.sz())
                    != pre.next_avail,
            forall|t: int|
                pre.state@.avail <= t < pre.state@.avail + chain.len() ==> #[trigger] self.at(t)
                    == avail_desc(
                    chain[t - pre.state@.avail],
                    pre.next_avail,
                    t + 1 < pre.state@.avail + chain.len(),
                    wrap_at(t, pre.sz()),
                ),
    {
        let a = pre.state@.avail as int;
        let n = chain.len() as int;
        assert forall|t: int| a + n - pre.size <= t < a implies #[trigger] self.at(t) == pre.at(t)
            && slot_at(t, pre.sz()) != pre.next_avail by {
            lemma_outside_span(t, a, n, pre.sz());
        }
        assert forall|t: int| a <= t < a + n implies #[trigger] self.at(t) == avail_desc(
            chain[t - a],
            pre.next_avail,
            t + 1 < a + n,
            wrap_at(t, pre.sz()),
        ) by {
            assert(self.at(t) == self.ring@[slot_at(t, pre.sz())]);
        }
    }

    /// Making a chain available keeps the cursors and the ownership marks
    /// well.
    #[verifier::rlimit(50)]
    proof fn lemma_added_marks(&self, pre: &PackedQueue, chain: Seq<Buffer>)
        requires
            self.added(pre, chain),
        ensures
            self.wf_cursors(),
            self.wf_marks(),
    {
        self.lemma_added_frame(pre, chain);
        let s0 = pre.state@;
        let s1 = self.state@;
        let a = s0.avail as int;
        let n = chain.len() as int;
        let c = s0.next_chain(chain);
        lemma_near(a, a, pre.sz());
        assert(consecutive(s1.pending, s1.seen, s1.avail, s1.size)) by {
            if s0.pending.len() > 0 {
                assert(s1.pending[0] == s0.pending[0]);
                assert(s0.pending.last() == s0.pending[s0.pending.len() - 1]);
            }
            assert(s1.pending.last() == c);
            assert forall|j: int| 0 <= j < s1.pending.len() implies (#[trigger] s1.pending[j]).bufs.len()
                >= 1 && s1.pending[j].id as int == slot_at(
                s1.pending[j].start as int,
                s1.size as int,
            ) by {
                if j < s0.pending.len() {
                    assert(s1.pending[j] == s0.pending[j]);
                }
            }
            assert forall|j: int|
                #![trigger s1.pending[j]]
                0 <= j < s1.pending.len() - 1 implies s1.pending[j + 1].start
                == s1.pending[j].start + s1.pending[j].bufs.len() by {
                assert(s1.pending[j] == s0.pending[j]);
                if j + 1 < s0.pending.len() {
                    assert(s1.pending[j + 1] == s0.pending[j + 1]);
                }
            }
        }
        assert forall|t: int|
            s1.avail - self.size <= t < s1.avail implies (#[trigger] self.at(t)).flags.avail_mark()
            == wrap_at(t, self.sz()) by {
            if t >= a {
                DescF::lemma_of(t + 1 < a + n, chain[t - a].write, false, wrap_at(t, pre.sz()), !wrap_at(t, pre.sz()));
            } else {
                assert(self.at(t) == pre.at(t));
                assert(pre.at(t).flags.avail_mark() == wrap_at(t, pre.sz()));
            }
        }
        assert forall|t: int|
            s1.used <= t < s1.avail implies (#[trigger] self.at(t)).flags.used_mark() == !wrap_at(
            t,
            self.sz(),
        ) by {
            if t >= a {
                DescF::lemma_of(t + 1 < a + n, chain[t - a].write, false, wrap_at(t, pre.sz()), !wrap_at(t, pre.sz()));
            } else {
                assert(self.at(t) == pre.at(t));
                assert(pre.at(t).flags.used_mark() == !wrap_at(t, pre.sz()));
            }
        }
    }

    /// Making a chain available leaves the chains that were in flight where
    /// they lie, and lays the new one after them.
    #[verifier::rlimit(50)]
    proof fn lemma_added_chains(&self, pre: &PackedQueue, chain: Seq<Buffer>)
        requires
            self.added(pre, chain),
        ensures
            self.wf_chains(),
    {
        self.lemma_added_frame(pre, chain);
        let s0 = pre.state@;
        let s1 = self.state@;
        let a = s0.avail as int;
        let n = chain.len() as int;
        let new_chain = s0.next_chain(chain);
        lemma_near(a, a, pre.sz());
        assert forall|j: int| 0 <= j < s1.pending.len() implies self.laid(
            #[trigger] s1.pending[j],
        ) && self.counted(s1.pending[j]) by {
            let c = s1.pending[j];
            if j < s0.pending.len() {
                assert(c == s0.pending[j]);
                lemma_within(s0.pending, s0.seen, s0.avail, s0.size, j);
                assert(pre.laid(c));
                assert(pre.counted(c));
                assert forall|t: int| c.start <= t < c.start + c.bufs.len() implies #[trigger] self.at(
                    t,
                ) == avail_desc(
                    c.bufs[t - c.start],
                    c.id,
                    t + 1 < c.start + c.bufs.len(),
                    wrap_at(t, self.sz()),
                ) by {
                    assert(self.at(t) == pre.at(t));
                }
                assert(self.at(c.start as int) == pre.at(c.start as int));
            } else {
                assert(c == new_chain);
            }
        }
        assert forall|j: int| 0 <= j < s1.taken.len() implies self.counted(#[trigger] s1.taken[j]) by {
            let c = s0.taken[j];
            lemma_within(s0.taken, s0.used, s0.seen, s0.size, j);
            assert(pre.counted(c));
            assert(self.at(c.start as int) == pre.at(c.start as int));
        }
        assert forall|j: int| 0 <= j < s1.completed.len() implies self.counted(
            #[trigger] s1.completed[j],
        ) && self.returned(s1.completed[j]) by {
            let c = s0.completed[j];
            lemma_within(s0.completed, s0.polled, s0.used, s0.size, j);
            assert(pre.counted(c));
            assert(pre.returned(c));
            assert(self.at(c.start as int) == pre.at(c.start as int));
        }
    }

    /// The queue is kept well by making a chain available.
    proof fn lemma_added(&self, pre: &PackedQueue, chain: Seq<Buffer>)
        requires
            self.added(pre, chain),
        ensures
            self.wf(),
    {
        self.lemma_added_marks(pre, chain);
        self.lemma_added_chains(pre, chain);
    }
}

/// Two running counts less than a lap apart fall on different slots.
proof fn lemma_differ(t: int, u: int, size: int)
    requires
        size > 0,
        t != u,
        t - u < size,
        u - t < size,
    ensures
        slot_at(t, size) != slot_at(u, size),
        0 <= slot_at(t, size) < size,
        0 <= slot_at(u, size) < size,
{
    if t < u {
        lemma_near(t, u, size);
    } else {
        lemma_near(u, t, size);
    }
}

impl PackedQueue {
    /// The driver has made a descriptor available that the device has not
    /// yet taken where, and only where, the slot at the device's cursor is
    /// marked available for the device's wrap counter.
    #[verifier::rlimit(50)]
    proof fn lemma_avail_mark(&self)
        requires
            self.wf(),
        ensures
            self.state@.pending.len() > 0 <==> self.ring@[self.dev_avail as int].flags.is_avail(
                self.dev_avail_wrap,
            ),
            self.state@.pending.len() > 0 ==> self.state@.pending[0].start == self.state@.seen
                && self.state@.pending[0].id == self.ring@[self.dev_avail as int].id
                && self.state@.pending[0].bufs.len() <= self.size,
    {
        let s = self.state@;
        let size = self.sz();
        if s.pending.len() > 0 {
            let c = s.pending[0];
            lemma_within(s.pending, s.seen, s.avail, s.size, 0);
            assert(self.laid(c));
            assert(self.at(c.start as int) == avail_desc(
                c.bufs[0],
                c.id,
                c.start + 1 < c.start + c.bufs.len(),
                wrap_at(c.start as int, size),
            ));
            DescF::lemma_of(
                c.start + 1 < c.start + c.bufs.len(),
                c.bufs[0].write,
                false,
                wrap_at(c.start as int, size),
                !wrap_at(c.start as int, size),
            );
        } else {
            lemma_near(s.avail - size, s.avail as int, size);
            assert(self.at(s.avail - size).flags.avail_mark() == wrap_at(s.avail - size, size));
        }
    }

    /// The device has used a chain that the driver has not yet polled
    /// where, and only where, the slot at the driver's cursor is marked used
    /// for the driver's wrap counter.
    #[verifier::rlimit(50)]
    proof fn lemma_used_mark(&self)
        requires
            self.wf(),
        ensures
            self.state@.completed.len() > 0 <==> self.ring@[self.next_used as int].flags.is_used(
                self.used_wrap,
            ),
            self.state@.completed.len() > 0 ==> self.state@.completed[0].start
                == self.state@.polled && self.state@.completed[0].id
                == self.ring@[self.next_used as int].id && self.state@.completed[0].written
                == self.ring@[self.next_used as int].len && self.chain_len@[self.state@.completed[0].id as int]
                == self.state@.completed[0].bufs.len() && self.state@.completed[0].bufs.len()
                <= self.size && self.state@.completed[0].id < self.size && self.num_free
                + self.state@.completed[0].bufs.len() <= self.size,
            self.next_used < self.size,
            self.ring@.len() == self.size,
            self.chain_len@.len() == self.size,
    {
        let s = self.state@;
        let size = self.sz();
        lemma_near(s.polled as int, s.polled as int, size);
        if s.completed.len() > 0 {
            let c = s.completed[0];
            lemma_within(s.completed, s.polled, s.used, s.size, 0);
            lemma_near(c.start as int, c.start as int, size);
            assert(self.returned(c));
            assert(self.counted(c));
            DescF::lemma_of(
                false,
                false,
                false,
                wrap_at(c.start as int, size),
                wrap_at(c.start as int, size),
            );
        } else if s.used < s.avail {
            assert(self.at(s.used as int).flags.avail_mark() == wrap_at(s.used as int, size));
            assert(self.at(s.used as int).flags.used_mark() == !wrap_at(s.used as int, size));
        } else {
            lemma_near(s.avail - size, s.avail as int, size);
            assert(self.at(s.avail - size).flags.avail_mark() == wrap_at(s.avail - size, size));
        }
    }

    /// Takes the oldest pending chain for the device: its buffer ID and its
    /// spans of memory.
    ///
    /// Returns nothing, and leaves the queue as it is, where the slot at the
    /// device's cursor is not marked available for the device's wrap
    /// counter, which is where the driver has made nothing available that
    /// the device has not yet taken.
    #[verifier::rlimit(50)]
    pub fn pop_avail(&mut self) -> (r: Option<(u16, Vec<Buffer>)>)
        requires
            old(self).wf(),
        ensures
            final(self).wf(),
            final(self).ring() == old(self).ring(),
            final(self).spec_size() == old(self).spec_size(),
            old(self)@.pending.len() == 0 ==> r is None && final(self)@ == old(self)@,
            old(self)@.pending.len() > 0 ==> (r matches Some((id, chain)) && id == old(
                self,
            )@.pending[0].id && chain@ == old(self)@.pending[0].bufs) && final(self)@ == old(
                self,
            )@.take(),
    {
        proof {
            self.lemma_avail_mark();
        }
        let head = self.ring[self.dev_avail as usize];
        if !head.flags.avail(self.dev_avail_wrap) {
            return None;
        }
        memory_barrier();
        let ghost pre = *self;
        let ghost c = pre.state@.pending[0];
        let ghost seen = pre.state@.seen as int;
        let mut out: Vec<Buffer> = Vec::new();
        let mut p: u16 = self.dev_avail;
        let mut w: bool = self.dev_avail_wrap;
        let mut m: u16 = 0;
        let mut more: bool = true;
        while more
            invariant
                *self == pre,
                pre.wf(),
                pre.state@.pending.len() > 0,
                c == pre.state@.pending[0],
                c.start == seen,
                c.bufs.len() <= pre.size,
                seen == pre.state@.seen,
                m <= c.bufs.len(),
                more ==> m < c.bufs.len(),
                !more ==> m == c.bufs.len(),
                p == slot_at(seen + m, pre.sz()),
                w == wrap_at(seen + m, pre.sz()),
                out@ == c.bufs.subrange(0, m as int),
            decreases c.bufs.len() - m + (if more { 1int } else { 0int }),
        {
            let d = self.ring[p as usize];
            proof {
                assert(pre.laid(c));
                assert(pre.at(seen + m) == avail_desc(
                    c.bufs[m as int],
                    c.id,
                    seen + m + 1 < c.start + c.bufs.len(),
                    wrap_at(seen + m, pre.sz()),
                ));
                DescF::lemma_of(
                    seen + m + 1 < c.start + c.bufs.len(),
                    c.bufs[m as int].write,
                    false,
                    wrap_at(seen + m, pre.sz()),
                    !wrap_at(seen + m, pre.sz()),
                );
            }
            out.push(Buffer { addr: d.addr, len: d.len, write: d.flags.write() });
            let next = step(p, w, self.size, Ghost(seen + m));
            p = next.0;
            w = next.1;
            m = m + 1;
            more = d.flags.next();
            assert(out@ =~= c.bufs.subrange(0, m as int));
        }
        assert(out@ =~= c.bufs);
        self.dev_held.push(Held { id: head.id, slots: m });
        self.dev_avail = p;
        self.dev_avail_wrap = w;
        proof {
            self.state = Ghost(pre.state@.take());
            self.lemma_taken(&pre);
        }
        Some((head.id, out))
    }

    /// The queue is kept well by the device taking the oldest pending chain,
    /// which writes nothing into the ring.
    #[verifier::rlimit(50)]
    proof fn lemma_taken(&self, pre: &PackedQueue)
        requires
            pre.wf(),
            pre.state@.pending.len() > 0,
            self.state@ == pre.state@.take(),
            self.size == pre.size,
            self.ring == pre.ring,
            self.chain_len == pre.chain_len,
            self.num_free == pre.num_free,
            self.next_avail == pre.next_avail,
            self.avail_wrap == pre.avail_wrap,
            self.next_used == pre.next_used,
            self.used_wrap == pre.used_wrap,
            self.dev_used == pre.dev_used,
            self.dev_used_wrap == pre.dev_used_wrap,
            self.dev_avail == slot_at(
                (pre.state@.seen + pre.state@.pending[0].bufs.len()) as int,
                pre.sz(),
            ),
            self.dev_avail_wrap == wrap_at(
                (pre.state@.seen + pre.state@.pending[0].bufs.len()) as int,
                pre.sz(),
            ),
            self.dev_held@ == pre.dev_held@.push(
                Held {
                    id: pre.state@.pending[0].id,
                    slots: pre.state@.pending[0].bufs.len() as u16,
                },
            ),
        ensures
            self.wf(),
    {
        let s0 = pre.state@;
        let s1 = self.state@;
        let c = s0.pending[0];
        lemma_within(s0.pending, s0.seen, s0.avail, s0.size, 0);
        assert(consecutive(s1.pending, s1.seen, s1.avail, s1.size)) by {
            assert forall|j: int| 0 <= j < s1.pending.len() implies #[trigger] s1.pending[j]
                == s0.pending[j + 1] by {}
            if s1.pending.len() > 0 {
                assert(s0.pending[1].start == s0.pending[0].start + s0.pending[0].bufs.len());
                assert(s1.pending.last() == s0.pending.last());
            }
            assert forall|j: int|
                #![trigger s1.pending[j]]
                0 <= j < s1.pending.len() - 1 implies s1.pending[j + 1].start
                == s1.pending[j].start + s1.pending[j].bufs.len() by {
                assert(s1.pending[j] == s0.pending[j + 1]);
                assert(s1.pending[j + 1] == s0.pending[j + 2]);
            }
        }
        assert(consecutive(s1.taken, s1.used, s1.seen, s1.size)) by {
            if s0.taken.len() > 0 {
                assert(s1.taken[0] == s0.taken[0]);
                assert(s0.taken.last() == s0.taken[s0.taken.len() - 1]);
            }
            assert(s1.taken.last() == c);
            assert forall|j: int| 0 <= j < s1.taken.len() implies (#[trigger] s1.taken[j]).bufs.len()
                >= 1 && s1.taken[j].id as int == slot_at(s1.taken[j].start as int, s1.size as int) by {
                if j < s0.taken.len() {
                    assert(s1.taken[j] == s0.taken[j]);
                }
            }
            assert forall|j: int|
                #![trigger s1.taken[j]]
                0 <= j < s1.taken.len() - 1 implies s1.taken[j + 1].start == s1.taken[j].start
                + s1.taken[j].bufs.len() by {
                assert(s1.taken[j] == s0.taken[j]);
                if j + 1 < s0.taken.len() {
                    assert(s1.taken[j + 1] == s0.taken[j + 1]);
                }
            }
        }
        assert(self.wf_cursors());
        assert(self.wf_marks()) by {
            assert forall|t: int|
                s1.avail - self.size <= t < s1.avail implies (#[trigger] self.at(t)).flags.avail_mark()
                == wrap_at(t, self.sz()) by {
                assert(self.at(t) == pre.at(t));
            }
            assert forall|t: int|
                s1.used <= t < s1.avail implies (#[trigger] self.at(t)).flags.used_mark()
                == !wrap_at(t, self.sz()) by {
                assert(self.at(t) == pre.at(t));
            }
        }
        assert(self.wf_chains()) by {
            assert forall|j: int| 0 <= j < s1.pending.len() implies self.laid(
                #[trigger] s1.pending[j],
            ) && self.counted(s1.pending[j]) by {
                let d = s0.pending[j + 1];
                assert(pre.laid(d));
                assert(pre.counted(d));
                assert forall|t: int| d.start <= t < d.start + d.bufs.len() implies #[trigger] self.at(
                    t,
                ) == avail_desc(
                    d.bufs[t - d.start],
                    d.id,
                    t + 1 < d.start + d.bufs.len(),
                    wrap_at(t, self.sz()),
                ) by {
                    assert(self.at(t) == pre.at(t));
                }
            }
            assert forall|j: int| 0 <= j < s1.taken.len() implies self.counted(
                #[trigger] s1.taken[j],
            ) && (#[trigger] self.dev_held@[j]).id == s1.taken[j].id && self.dev_held@[j].slots
                == s1.taken[j].bufs.len() by {
                if j < s0.taken.len() {
                    assert(pre.counted(s0.taken[j]));
                    assert(pre.dev_held@[j].id == s0.taken[j].id);
                } else {
                    assert(pre.counted(c));
                }
            }
            assert forall|j: int| 0 <= j < s1.completed.len() implies self.counted(
                #[trigger] s1.completed[j],
            ) && self.returned(s1.completed[j]) by {
                assert(pre.counted(s0.completed[j]));
                assert(pre.returned(s0.completed[j]));
            }
        }
    }

    /// Returns the oldest chain that the device has taken as used, with
    /// `len` bytes written, and gives its buffer ID.
    ///
    /// One descriptor is written, at the device's cursor for used
    /// descriptors, with both ownership marks as the device's wrap counter;
    /// the cursor then skips as many slots as the chain occupies. Fails with
    /// `MalformedChain`, and leaves the queue as it is, where the device
    /// holds no chain.
    #[verifier::rlimit(50)]
    pub fn push_used(&mut self, len: u32) -> (r: Result<u16, Error>)
        requires
            old(self).wf(),
        ensures
            final(self).wf(),
            final(self).spec_size() == old(self).spec_size(),
            old(self)@.taken.len() == 0 ==> r == Err::<u16, Error>(Error::MalformedChain)
                && final(self)@ == old(self)@ && final(self).ring() == old(self).ring(),
            old(self)@.taken.len() > 0 ==> r == Ok::<u16, Error>(old(self)@.taken[0].id)
                && final(self)@ == old(self)@.complete(len) && final(self).ring() == old(
                self,
            ).ring().update(
                slot_at(old(self)@.used as int, old(self)@.size as int),
                used_desc(
                    old(self)@.taken[0].id,
                    len,
                    wrap_at(old(self)@.used as int, old(self)@.size as int),
                ),
            ),
    {
        if self.dev_held.len() == 0 {
            return Err(Error::MalformedChain);
        }
        let ghost pre = *self;
        proof {
            lemma_within(pre.state@.taken, pre.state@.used, pre.state@.seen, pre.state@.size, 0);
        }
        let held = self.dev_held.remove(0);
        let w = self.dev_used_wrap;
        memory_barrier();
        self.ring.set(
            self.dev_used as usize,
            Desc { addr: 0, len, id: held.id, flags: DescF::new(false, false, false, w, w) },
        );
        let next = advance(
            self.dev_used,
            self.dev_used_wrap,
            held.slots,
            self.size,
            Ghost(pre.state@.used as int),
        );
        self.dev_used = next.0;
        self.dev_used_wrap = next.1;
        proof {
            self.state = Ghost(pre.state@.complete(len));
            self.lemma_completed(&pre, len);
        }
        Ok(held.id)
    }

    /// Whether `self` is `pre` after the device has returned the oldest
    /// chain that it had taken as used, with `len` bytes written.
    spec fn completed(&self, pre: &PackedQueue, len: u32) -> bool {
        let s0 = pre.state@;
        &&& pre.wf()
        &&& s0.taken.len() > 0
        &&& self.state@ == s0.complete(len)
        &&& self.size == pre.size
        &&& self.chain_len == pre.chain_len
        &&& self.num_free == pre.num_free
        &&& self.next_avail == pre.next_avail
        &&& self.avail_wrap == pre.avail_wrap
        &&& self.next_used == pre.next_used
        &&& self.used_wrap == pre.used_wrap
        &&& self.dev_avail == pre.dev_avail
        &&& self.dev_avail_wrap == pre.dev_avail_wrap
        &&& self.dev_used == slot_at((s0.used + s0.taken[0].bufs.len()) as int, pre.sz())
        &&& self.dev_used_wrap == wrap_at((s0.used + s0.taken[0].bufs.len()) as int, pre.sz())
        &&& self.dev_held@ == pre.dev_held@.remove(0)
        &&& self.ring@ == pre.ring@.update(
            pre.dev_used as int,
            used_desc(s0.taken[0].id, len, pre.dev_used_wrap),
        )
    }

    /// Returning a chain as used writes the first slot of that chain and no
    /// other slot that a running count of the last lap falls on.
    #[verifier::rlimit(50)]
    proof fn lemma_completed_frame(&self, pre: &PackedQueue, len: u32)
        requires
            self.completed(pre, len),
        ensures
            pre.state@.taken[0].start == pre.state@.used,
            pre.state@.used + pre.state@.taken[0].bufs.len() <= pre.state@.seen,
            self.at(pre.state@.used as int) == used_desc(
                pre.state@.taken[0].id,
                len,
                wrap_at(pre.state@.used as int, pre.sz()),
            ),
            forall|t: int|
                pre.state@.avail - pre.size <= t < pre.state@.avail && t != pre.state@.used
                    ==> #[trigger] self.at(t) == pre.at(t),
    {
        let s0 = pre.state@;
        let u = s0.used as int;
        lemma_within(s0.taken, s0.used, s0.seen, s0.size, 0);
        lemma_near(u, u, pre.sz());
        assert forall|t: int| s0.avail - pre.size <= t < s0.avail && t != u implies #[trigger] self.at(
            t,
        ) == pre.at(t) by {
            lemma_differ(t, u, pre.sz());
        }
    }

    /// Returning a chain as used keeps the cursors and the ownership marks
    /// well.
    #[verifier::rlimit(50)]
    proof fn lemma_completed_marks(&self, pre: &PackedQueue, len: u32)
        requires
            self.completed(pre, len),
        ensures
            self.wf_cursors(),
            self.wf_marks(),
    {
        self.lemma_completed_frame(pre, len);
        let s0 = pre.state@;
        let s1 = self.state@;
        let c = s0.taken[0];
        let done = PackedChain { written: len, ..c };
        assert(consecutive(s1.taken, s1.used, s1.seen, s1.size)) by {
            assert forall|j: int| 0 <= j < s1.taken.len() implies #[trigger] s1.taken[j]
                == s0.taken[j + 1] by {}
            if s1.taken.len() > 0 {
                assert(s0.taken[1].start == s0.taken[0].start + s0.taken[0].bufs.len());
                assert(s1.taken.last() == s0.taken.last());
            }
            assert forall|j: int|
                #![trigger s1.taken[j]]
                0 <= j < s1.taken.len() - 1 implies s1.taken[j + 1].start == s1.taken[j].start
                + s1.taken[j].bufs.len() by {
                assert(s1.taken[j] == s0.taken[j + 1]);
                assert(s1.taken[j + 1] == s0.taken[j + 2]);
            }
        }
        assert(consecutive(s1.completed, s1.polled, s1.used, s1.size)) by {
            if s0.completed.len() > 0 {
                assert(s1.completed[0] == s0.completed[0]);
                assert(s0.completed.last() == s0.completed[s0.completed.len() - 1]);
            }
            assert(s1.completed.last() == done);
            assert forall|j: int| 0 <= j < s1.completed.len() implies (
            #[trigger] s1.completed[j]).bufs.len() >= 1 && s1.completed[j].id as int == slot_at(
                s1.completed[j].start as int,
                s1.size as int,
            ) by {
                if j < s0.completed.len() {
                    assert(s1.completed[j] == s0.completed[j]);
                }
            }
            assert forall|j: int|
                #![trigger s1.completed[j]]
                0 <= j < s1.completed.len() - 1 implies s1.completed[j + 1].start
                == s1.completed[j].start + s1.completed[j].bufs.len() by {
                assert(s1.completed[j] == s0.completed[j]);
                if j + 1 < s0.completed.len() {
                    assert(s1.completed[j + 1] == s0.completed[j + 1]);
                }
            }
        }
        assert(self.wf_cursors());
        let w = wrap_at(s0.used as int, pre.sz());
        DescF::lemma_of(false, false, false, w, w);
        assert forall|t: int|
            s1.avail - self.size <= t < s1.avail implies (#[trigger] self.at(t)).flags.avail_mark()
            == wrap_at(t, self.sz()) by {
            if t != s0.used {
                assert(self.at(t) == pre.at(t));
                assert(pre.at(t).flags.avail_mark() == wrap_at(t, pre.sz()));
            }
        }
        assert forall|t: int|
            s1.used <= t < s1.avail implies (#[trigger] self.at(t)).flags.used_mark() == !wrap_at(
            t,
            self.sz(),
        ) by {
            assert(self.at(t) == pre.at(t));
            assert(pre.at(t).flags.used_mark() == !wrap_at(t, pre.sz()));
        }
    }

    /// Returning a chain as used leaves the other chains in flight where
    /// they lie.
    #[verifier::rlimit(50)]
    proof fn lemma_completed_chains(&self, pre: &PackedQueue, len: u32)
        requires
            self.completed(pre, len),
        ensures
            self.wf_chains(),
    {
        self.lemma_completed_frame(pre, len);
        let s0 = pre.state@;
        let s1 = self.state@;
        let c = s0.taken[0];
        assert(pre.counted(c));
        assert forall|j: int| 0 <= j < s1.pending.len() implies self.laid(
            #[trigger] s1.pending[j],
        ) && self.counted(s1.pending[j]) by {
            let d = s0.pending[j];
            lemma_within(s0.pending, s0.seen, s0.avail, s0.size, j);
            assert(pre.laid(d));
            assert(pre.counted(d));
            assert forall|t: int| d.start <= t < d.start + d.bufs.len() implies #[trigger] self.at(
                t,
            ) == avail_desc(
                d.bufs[t - d.start],
                d.id,
                t + 1 < d.start + d.bufs.len(),
                wrap_at(t, self.sz()),
            ) by {
                assert(self.at(t) == pre.at(t));
            }
        }
        assert forall|j: int| 0 <= j < s1.taken.len() implies self.counted(#[trigger] s1.taken[j])
            && (#[trigger] self.dev_held@[j]).id == s1.taken[j].id && self.dev_held@[j].slots
            == s1.taken[j].bufs.len() by {
            assert(s1.taken[j] == s0.taken[j + 1]);
            assert(pre.counted(s0.taken[j + 1]));
            assert(pre.dev_held@[j + 1].id == s0.taken[j + 1].id);
            assert(self.dev_held@[j] == pre.dev_held@[j + 1]);
        }
        assert forall|j: int| 0 <= j < s1.completed.len() implies self.counted(
            #[trigger] s1.completed[j],
        ) && self.returned(s1.completed[j]) by {
            if j < s0.completed.len() {
                let d = s0.completed[j];
                lemma_within(s0.completed, s0.polled, s0.used, s0.size, j);
                assert(pre.counted(d));
                assert(pre.returned(d));
                assert(self.at(d.start as int) == pre.at(d.start as int));
            }
        }
    }

    /// The queue is kept well by returning a chain as used.
    proof fn lemma_completed(&self, pre: &PackedQueue, len: u32)
        requires
            self.completed(pre, len),
        ensures
            self.wf(),
    {
        self.lemma_completed_marks(pre, len);
        self.lemma_completed_chains(pre, len);
    }

    /// Takes the oldest completion out of the ring for the driver, and
    /// frees the slots of its chain.
    ///
    /// Returns nothing, and leaves the queue as it is, where the slot at the
    /// driver's cursor is not marked used for the driver's wrap counter,
    /// which is where the device has used no chain that the driver has not
    /// yet polled. It never waits. The cursor skips as many slots as the
    /// chain occupies, and the wrap counter is toggled where the ring ends.
    #[verifier::rlimit(50)]
    pub fn poll_used(&mut self) -> (r: Option<UsedElem>)
        requires
            old(self).wf(),
        ensures
            final(self).wf(),
            final(self).ring() == old(self).ring(),
            final(self).spec_size() == old(self).spec_size(),
            old(self)@.completed.len() == 0 ==> r is None && final(self)@ == old(self)@,
            old(self)@.completed.len() > 0 ==> r == Some(
                UsedElem {
                    id: old(self)@.completed[0].id as u32,
                    len: old(self)@.completed[0].written,
                },
            ) && final(self)@ == old(self)@.poll(),
    {
        proof {
            self.lemma_used_mark();
        }
        let d = self.ring[self.next_used as usize];
        if !d.flags.used(self.used_wrap) {
            return None;
        }
        memory_barrier();
        let ghost pre = *self;
        let n = self.chain_len[d.id as usize];
        let next = advance(
            self.next_used,
            self.used_wrap,
            n,
            self.size,
            Ghost(pre.state@.polled as int),
        );
        self.next_used = next.0;
        self.used_wrap = next.1;
        self.num_free = self.num_free + n;
        proof {
            self.state = Ghost(pre.state@.poll());
            self.lemma_polled(&pre);
        }
        Some(UsedElem { id: d.id as u32, len: d.len })
    }

    /// The queue is kept well by the driver polling the oldest completion,
    /// which writes nothing into the ring.
    #[verifier::rlimit(50)]
    proof fn lemma_polled(&self, pre: &PackedQueue)
        requires
            pre.wf(),
            pre.state@.completed.len() > 0,
            self.state@ == pre.state@.poll(),
            self.size == pre.size,
            self.ring == pre.ring,
            self.chain_len == pre.chain_len,
            self.num_free == pre.num_free + pre.state@.completed[0].bufs.len(),
            self.next_avail == pre.next_avail,
            self.avail_wrap == pre.avail_wrap,
            self.dev_avail == pre.dev_avail,
            self.dev_avail_wrap == pre.dev_avail_wrap,
            self.dev_used == pre.dev_used,
            self.dev_used_wrap == pre.dev_used_wrap,
            self.dev_held == pre.dev_held,
            self.next_used == slot_at(
                (pre.state@.polled + pre.state@.completed[0].bufs.len()) as int,
                pre.sz(),
            ),
            self.used_wrap == wrap_at(
                (pre.state@.polled + pre.state@.completed[0].bufs.len()) as int,
                pre.sz(),
            ),
        ensures
            self.wf(),
    {
        let s0 = pre.state@;
        let s1 = self.state@;
        lemma_within(s0.completed, s0.polled, s0.used, s0.size, 0);
        assert(consecutive(s1.completed, s1.polled, s1.used, s1.size)) by {
            assert forall|j: int| 0 <= j < s1.completed.len() implies #[trigger] s1.completed[j]
                == s0.completed[j + 1] by {}
            if s1.completed.len() > 0 {
                assert(s0.completed[1].start == s0.completed[0].start
                    + s0.completed[0].bufs.len());
                assert(s1.completed.last() == s0.completed.last());
            }
            assert forall|j: int|
                #![trigger s1.completed[j]]
                0 <= j < s1.completed.len() - 1 implies s1.completed[j + 1].start
                == s1.completed[j].start + s1.completed[j].bufs.len() by {
                assert(s1.completed[j] == s0.completed[j + 1]);
                assert(s1.completed[j + 1] == s0.completed[j + 2]);
            }
        }
        assert(self.wf_cursors());
        assert(self.wf_marks()) by {
            assert forall|t: int|
                s1.avail - self.size <= t < s1.avail implies (#[trigger] self.at(t)).flags.avail_mark()
                == wrap_at(t, self.sz()) by {
                assert(self.at(t) == pre.at(t));
            }
            assert forall|t: int|
                s1.used <= t < s1.avail implies (#[trigger] self.at(t)).flags.used_mark()
                == !wrap_at(t, self.sz()) by {
                assert(self.at(t) == pre.at(t));
            }
        }
        assert(self.wf_chains()) by {
            assert forall|j: int| 0 <= j < s1.pending.len() implies self.laid(
                #[trigger] s1.pending[j],
            ) && self.counted(s1.pending[j]) by {
                let d = s0.pending[j];
                assert(pre.laid(d));
                assert(pre.counted(d));
                assert forall|t: int| d.start <= t < d.start + d.bufs.len() implies #[trigger] self.at(
                    t,
                ) == avail_desc(
                    d.bufs[t - d.start],
                    d.id,
                    t + 1 < d.start + d.bufs.len(),
                    wrap_at(t, self.sz()),
                ) by {
                    assert(self.at(t) == pre.at(t));
                }
            }
            assert forall|j: int| 0 <= j < s1.taken.len() implies self.counted(
                #[trigger] s1.taken[j],
            ) by {
                assert(pre.counted(s0.taken[j]));
            }
            assert forall|j: int| 0 <= j < s1.completed.len() implies self.counted(
                #[trigger] s1.completed[j],
            ) && self.returned(s1.completed[j]) by {
                assert(pre.counted(s0.completed[j + 1]));
                assert(pre.returned(s0.completed[j + 1]));
            }
        }
    }
}

impl PackedQueue {
    /// The descriptor ring as it lies in memory.
    pub closed spec fn ring(&self) -> Seq<Desc> {
        self.ring@
    }

    /// The memory holds what the state says: each descriptor of a pending
    /// chain lies in the slot of its running count, marked available for
    /// the lap of that count and continuing where the chain does, and the
    /// completion of each used chain lies in the first slot of that chain,
    /// marked used for the lap of that slot.
    #[verifier::rlimit(50)]
    pub proof fn lemma_memory(&self)
        requires
            self.wf(),
        ensures
            self.ring().len() == self@.size,
            forall|j: int, t: int|
                #![trigger self@.pending[j], slot_at(t, self@.size as int)]
                0 <= j < self@.pending.len() && self@.pending[j].start <= t < self@.pending[j].start
                    + self@.pending[j].bufs.len() ==> self.ring()[slot_at(t, self@.size as int)]
                    == avail_desc(
                    self@.pending[j].bufs[t - self@.pending[j].start],
                    self@.pending[j].id,
                    t + 1 < self@.pending[j].start + self@.pending[j].bufs.len(),
                    wrap_at(t, self@.size as int),
                ),
            forall|j: int|
                0 <= j < self@.completed.len() ==> self.ring()[slot_at(
                    (#[trigger] self@.completed[j]).start as int,
                    self@.size as int,
                )] == used_desc(
                    self@.completed[j].id,
                    self@.completed[j].written,
                    wrap_at(self@.completed[j].start as int, self@.size as int),
                ),
    {
        assert forall|j: int, t: int|
            #![trigger self@.pending[j], slot_at(t, self@.size as int)]
            0 <= j < self@.pending.len() && self@.pending[j].start <= t < self@.pending[j].start
                + self@.pending[j].bufs.len() implies self.ring()[slot_at(t, self@.size as int)]
            == avail_desc(
            self@.pending[j].bufs[t - self@.pending[j].start],
            self@.pending[j].id,
            t + 1 < self@.pending[j].start + self@.pending[j].bufs.len(),
            wrap_at(t, self@.size as int),
        ) by {
            assert(self.laid(self@.pending[j]));
            assert(self.at(t) == self.ring()[slot_at(t, self@.size as int)]);
        }
        assert forall|j: int| 0 <= j < self@.completed.len() implies self.ring()[slot_at(
            (#[trigger] self@.completed[j]).start as int,
            self@.size as int,
        )] == used_desc(
            self@.completed[j].id,
            self@.completed[j].written,
            wrap_at(self@.completed[j].start as int, self@.size as int),
        ) by {
            assert(self.returned(self@.completed[j]));
        }
    }

    /// The number of slots that no chain occupies.
    pub fn num_free(&self) -> (r: u16)
        requires
            self.wf(),
        ensures
            r == self@.num_free(),
    {
        self.num_free
    }

    /// The slot in which the driver writes next.
    pub fn next_avail(&self) -> (r: u16)
        requires
            self.wf(),
        ensures
            r == self@.next_avail(),
    {
        self.next_avail
    }

    /// The wrap counter with which the driver writes next.
    pub fn avail_wrap(&self) -> (r: bool)
        requires
            self.wf(),
        ensures
            r == self@.avail_wrap(),
    {
        self.avail_wrap
    }

    /// The slot in which the driver looks for the next completion.
    pub fn next_used(&self) -> (r: u16)
        requires
            self.wf(),
        ensures
            r == self@.next_used(),
    {
        self.next_used
    }

    /// The wrap counter with which the driver looks for the next
    /// completion.
    pub fn used_wrap(&self) -> (r: bool)
        requires
            self.wf(),
        ensures
            r == self@.used_wrap(),
    {
        self.used_wrap
    }

    /// The descriptor in slot `i` of the ring, or nothing where the ring
    /// has no such slot.
    pub fn desc(&self, i: u16) -> (r: Option<Desc>)
        requires
            self.wf(),
        ensures
            i < self.spec_size() ==> r == Some(self.ring()[i as int]),
            i >= self.spec_size() ==> r is None,
    {
        if i < self.size {
            Some(self.ring[i as usize])
        } else {
            None
        }
    }

    /// Decides for the driver whether to notify the device, after it has
    /// made `count` descriptors available from the slot `pos` of a lap with
    /// wrap counter `wrap` on, as the device's control asks.
    pub fn needs_notify(&self, device: &EventControl, pos: u16, wrap: bool, count: u16) -> (r: bool)
        ensures
            r == device@.signals_packed(pos, wrap, count, self.spec_size()),
    {
        device.signal_packed(pos, wrap, count, self.size)
    }

    /// Decides for the device whether to interrupt the driver, after it has
    /// used `count` descriptors from the slot `pos` of a lap with wrap
    /// counter `wrap` on, as the driver's control asks.
    pub fn needs_interrupt(&self, driver: &EventControl, pos: u16, wrap: bool, count: u16) -> (r:
        bool)
        ensures
            r == driver@.signals_packed(pos, wrap, count, self.spec_size()),
    {
        driver.signal_packed(pos, wrap, count, self.size)
    }
}

impl PackedQueue {
    /// Resets the queue, as a device reset does: the ring is as that of a
    /// new queue of the same size, with both wrap counters set, and whatever
    /// was in flight is gone.
    pub fn reset(&mut self)
        requires
            old(self).wf(),
        ensures
            final(self).wf(),
            final(self)@ == PackedState::init(old(self)@.size),
            final(self).spec_size() == old(self).spec_size(),
    {
        match PackedQueue::new(self.size) {
            Some(q) => {
                *self = q;
            },
            None => {},
        }
    }
}

impl PackedQueue {
    /// The bytes of the descriptor ring as they lie in memory.
    pub fn ring_bytes(&self) -> (r: Vec<u8>)
        requires
            self.wf(),
        ensures
            r@ == ring_layout(self.ring()),
    {
        ring_bytes(self.ring.as_slice())
    }
}

impl PackedQueue {
    /// The ownership marks at the two cursors say what the state says: the
    /// slot at the device's cursor is marked available for the device's
    /// wrap counter where, and only where, a chain is pending, and the slot
    /// at the driver's cursor is marked used for the driver's wrap counter
    /// where, and only where, a completion waits.
    pub proof fn lemma_ownership(&self)
        requires
            self.wf(),
        ensures
            self@.pending.len() > 0 <==> self.ring()[slot_at(
                self@.seen as int,
                self@.size as int,
            )].flags.is_avail(wrap_at(self@.seen as int, self@.size as int)),
            self@.completed.len() > 0 <==> self.ring()[slot_at(
                self@.polled as int,
                self@.size as int,
            )].flags.is_used(wrap_at(self@.polled as int, self@.size as int)),
    {
        self.lemma_avail_mark();
        self.lemma_used_mark();
    }
}

} // verus!
