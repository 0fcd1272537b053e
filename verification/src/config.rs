//! Stable reads of a device configuration space.
//!
//! A device may change its configuration space while the driver reads it.
//! It counts the changes in a generation field, and the driver reads that
//! field before and after the fields it wants: where the two differ, what
//! was read may be a mix of an old and a new configuration, and the driver
//! reads again.

use vstd::prelude::*;
use crate::error::Error;

verus! {

/// What one attempt at reading has got: the value, where the generation
/// was the same before and after reading it.
pub open spec fn settled<T>(before: u32, value: T, after: u32) -> Option<T> {
    if before == after {
        Some(value)
    } else {
        None
    }
}

/// Decides on one attempt at reading: keeps `value` where the generation
/// `after` reading it is the generation `before`, and drops it else, for the
/// caller to read again.
pub fn settle<T>(before: u32, value: T, after: u32) -> (r: Option<T>)
    ensures
        r == settled(before, value, after),
{
    if before == after {
        Some(value)
    } else {
        None
    }
}

/// Whether every look at the generation gives the same value: the device
/// changes nothing while the driver reads.
pub open spec fn quiet<G: Fn() -> u32>(generation: G) -> bool {
    forall|a: u32, b: u32|
        call_ensures(generation, (), a) && call_ensures(generation, (), b) ==> a == b
}

/// Reads with `read` until the generation that `generation` gives is the
/// same before and after, and at most `max_attempts` times.
///
/// Fails with `ConfigReadTimeout` where no attempt has settled, as with no
/// attempt allowed. A value that is returned is one that `read` gave. Where
/// the device changes nothing, the first attempt settles, so that the read
/// succeeds with any attempt allowed. Else it is for the device to decide
/// which attempt settles: [`settle`] says what becomes of each.
pub fn read_config_bounded<T, G: Fn() -> u32, F: Fn() -> T>(
    generation: G,
    read: F,
    max_attempts: u32,
) -> (r: Result<T, Error>)
    requires
        call_requires(generation, ()),
        call_requires(read, ()),
    ensures
        r matches Err(e) ==> e == Error::ConfigReadTimeout,
        max_attempts == 0 ==> r is Err,
        max_attempts > 0 && quiet(generation) ==> r is Ok,
        r matches Ok(v) ==> call_ensures(read, (), v),
{
    let mut i: u32 = 0;
    while i < max_attempts
        invariant
            call_requires(generation, ()),
            call_requires(read, ()),
            quiet(generation) ==> i == 0,
        decreases max_attempts - i,
    {
        let before = generation();
        let value = read();
        let after = generation();
        let ghost got = value;
        match settle(before, value, after) {
            Some(v) => {
                assert(v == got);
                return Ok(v);
            },
            None => {},
        }
        i = i + 1;
    }
    Err(Error::ConfigReadTimeout)
}

/// The generation that a device shows after `epoch` changes of its
/// configuration.
pub open spec fn generation_of(epoch: nat) -> u32 {
    (epoch % 0x1_0000_0000) as u32
}

/// A read of the configuration space that the driver has begun.
pub struct ReadState {
    /// How often the device had changed the configuration when the read
    /// began.
    pub started: nat,
    /// The configuration when the read began.
    pub first: Seq<u8>,
    /// The offsets of the bytes that were read so far.
    pub offsets: Seq<int>,
    /// The bytes that were read so far.
    pub value: Seq<u8>,
}

impl ReadState {
    /// Whether every byte that was read is the byte of the configuration
    /// with which the read began.
    pub open spec fn untorn(self) -> bool {
        &&& self.value.len() == self.offsets.len()
        &&& forall|i: int|
            0 <= i < self.offsets.len() ==> 0 <= #[trigger] self.offsets[i] < self.first.len()
                && self.value[i] == self.first[self.offsets[i]]
    }
}

/// A configuration space, and the read of it that the driver has begun, if
/// any.
pub struct ConfigState {
    /// How often the device has changed the configuration.
    pub epoch: nat,
    /// The configuration.
    pub bytes: Seq<u8>,
    /// The read that the driver has begun.
    pub read: Option<ReadState>,
}

impl ConfigState {
    /// The generation that the device shows.
    pub open spec fn generation(self) -> u32 {
        generation_of(self.epoch)
    }

    /// The state after the device has changed the configuration to `bytes`.
    pub open spec fn update(self, bytes: Seq<u8>) -> ConfigState {
        ConfigState { epoch: self.epoch + 1, bytes, ..self }
    }

    /// The state after the driver has begun a read, in place of any that it
    /// had begun before.
    pub open spec fn begin(self) -> ConfigState {
        ConfigState {
            read: Some(
                ReadState {
                    started: self.epoch,
                    first: self.bytes,
                    offsets: Seq::empty(),
                    value: Seq::empty(),
                },
            ),
            ..self
        }
    }

    /// The state after the driver has read the byte at `offset`.
    pub open spec fn read_at(self, offset: int) -> ConfigState
        recommends
            self.read is Some,
            0 <= offset < self.bytes.len(),
    {
        ConfigState {
            read: Some(
                ReadState {
                    offsets: self.read->0.offsets.push(offset),
                    value: self.read->0.value.push(self.bytes[offset]),
                    ..self.read->0
                },
            ),
            ..self
        }
    }

    /// The state after the driver has ended its read.
    pub open spec fn end(self) -> ConfigState {
        ConfigState { read: None, ..self }
    }

    /// Whether the driver has begun a read and the generation is what it
    /// was then.
    pub open spec fn settles(self) -> bool {
        self.read is Some && self.generation() == generation_of(self.read->0.started)
    }

    /// Whether the generation has not gone round once since the read
    /// began: the device has changed the configuration less than 2^32
    /// times.
    pub open spec fn within_a_round(self) -> bool {
        self.read is Some && self.epoch - self.read->0.started < 0x1_0000_0000
    }

    /// What holds of every state: a read began no later than now, and while
    /// the device has changed nothing since, the configuration is the one
    /// with which it began and every byte read is a byte of that.
    pub open spec fn valid(self) -> bool {
        self.read matches Some(r) ==> {
            &&& r.started <= self.epoch
            &&& r.value.len() == r.offsets.len()
            &&& (self.epoch == r.started ==> self.bytes == r.first && r.untorn())
        }
    }

    /// A read that settles holds no mix of two configurations: where the
    /// generation is what it was when the read began, and has not gone round
    /// since, the device has changed nothing and every byte that was read is
    /// a byte of the one configuration with which the read began.
    pub proof fn lemma_settled_untorn(self)
        requires
            self.valid(),
            self.settles(),
            self.within_a_round(),
        ensures
            self.epoch == self.read->0.started,
            self.read->0.untorn(),
    {
    }

    /// A read during which the device has changed the configuration does
    /// not settle, so the driver reads again.
    pub proof fn lemma_changed_retries(self)
        requires
            self.valid(),
            self.within_a_round(),
            self.epoch != self.read->0.started,
        ensures
            !self.settles(),
    {
    }

    /// A read during which the device has changed nothing settles.
    pub proof fn lemma_unchanged_settles(self)
        requires
            self.valid(),
            self.read is Some,
            self.epoch == self.read->0.started,
        ensures
            self.settles(),
            self.read->0.untorn(),
    {
    }
}

/// A configuration space of a device in memory, with its generation field,
/// and the read of it that the driver has begun, if any.
///
/// The device changes the configuration with
/// [`device_update`](Self::device_update). The driver reads it byte by byte
/// between [`begin_read`](Self::begin_read) and
/// [`end_read`](Self::end_read), and the device may change it in between.
pub struct ConfigArea {
    generation: u32,
    bytes: Vec<u8>,
    before: Option<u32>,
    value: Vec<u8>,
    state: Ghost<ConfigState>,
}

impl ConfigArea {
    /// What the configuration space holds.
    pub closed spec fn view(&self) -> ConfigState {
        self.state@
    }

    /// What every operation keeps: the generation field is that of the
    /// number of changes, and the bytes read so far are those of the state.
    pub closed spec fn wf(&self) -> bool {
        let s = self.state@;
        &&& s.valid()
        &&& self.generation == s.generation()
        &&& self.bytes@ == s.bytes
        &&& self.before is Some <==> s.read is Some
        &&& s.read matches Some(r) ==> self.before == Some(generation_of(r.started))
            && self.value@ == r.value
    }

    /// An area that is kept well holds a valid state.
    pub proof fn lemma_valid(&self)
        requires
            self.wf(),
        ensures
            self@.valid(),
    {
    }

    /// A configuration space that holds `bytes` and has not changed yet.
    pub fn new(bytes: Vec<u8>) -> (r: ConfigArea)
        ensures
            r.wf(),
            r@ == (ConfigState { epoch: 0, bytes: bytes@, read: None }),
    {
        ConfigArea {
            generation: 0,
            bytes,
            before: None,
            value: Vec::new(),
            state: Ghost(ConfigState { epoch: 0, bytes: bytes@, read: None }),
        }
    }

    /// The generation that the device shows.
    pub fn generation(&self) -> (r: u32)
        requires
            self.wf(),
        ensures
            r == self@.generation(),
    {
        self.generation
    }

    /// Changes the configuration to `bytes` for the device, and moves the
    /// generation on by one, from the highest value round to 0.
    pub fn device_update(&mut self, bytes: Vec<u8>)
        requires
            old(self).wf(),
        ensures
            final(self).wf(),
            final(self)@ == old(self)@.update(bytes@),
    {
        let ghost next = self.state@.update(bytes@);
        self.bytes = bytes;
        self.generation = self.generation.wrapping_add(1);
        self.state = Ghost(next);
    }

    /// Begins a read for the driver: takes down the generation.
    pub fn begin_read(&mut self)
        requires
            old(self).wf(),
        ensures
            final(self).wf(),
            final(self)@ == old(self)@.begin(),
    {
        let ghost next = self.state@.begin();
        self.before = Some(self.generation);
        self.value = Vec::new();
        self.state = Ghost(next);
    }

    /// Reads the byte at `offset` for the driver.
    ///
    /// Returns nothing, and leaves the area as it is, where the driver has
    /// begun no read or the configuration has no byte at `offset`.
    pub fn read_byte(&mut self, offset: usize) -> (r: Option<u8>)
        requires
            old(self).wf(),
        ensures
            final(self).wf(),
            old(self)@.read is Some && offset < old(self)@.bytes.len() ==> r == Some(
                old(self)@.bytes[offset as int],
            ) && final(self)@ == old(self)@.read_at(offset as int),
            !(old(self)@.read is Some && offset < old(self)@.bytes.len()) ==> r is None
                && final(self)@ == old(self)@,
    {
        if self.before.is_none() || offset >= self.bytes.len() {
            return None;
        }
        let ghost next = self.state@.read_at(offset as int);
        let b = self.bytes[offset];
        self.value.push(b);
        self.state = Ghost(next);
        Some(b)
    }

    /// Ends the read for the driver: gives the bytes that were read, in
    /// the order in which they were read, where the generation is the one
    /// that was taken down when the read began.
    ///
    /// Returns nothing where the driver has begun no read, or where the
    /// generation differs, for the driver to read again. Either way no read
    /// is in progress afterwards.
    pub fn end_read(&mut self) -> (r: Option<Vec<u8>>)
        requires
            old(self).wf(),
        ensures
            final(self).wf(),
            final(self)@ == old(self)@.end(),
            r is Some <==> old(self)@.settles(),
            r matches Some(v) ==> v@ == old(self)@.read->0.value,
            r is Some && old(self)@.within_a_round() ==> old(self)@.read->0.untorn(),
    {
        let ghost next = self.state@.end();
        let before = self.before;
        self.before = None;
        self.state = Ghost(next);
        let mut value: Vec<u8> = Vec::new();
        std::mem::swap(&mut value, &mut self.value);
        match before {
            None => None,
            Some(g) => settle(g, value, self.generation),
        }
    }
}

/// A copy of `bytes`.
fn copy_bytes(bytes: &[u8]) -> (r: Vec<u8>)
    ensures
        r@ == bytes@,
{
    let mut out: Vec<u8> = Vec::new();
    let mut i: usize = 0;
    while i < bytes.len()
        invariant
            i <= bytes@.len(),
            out@ == bytes@.subrange(0, i as int),
        decreases bytes@.len() - i,
    {
        out.push(bytes[i]);
        i = i + 1;
        assert(out@ =~= bytes@.subrange(0, i as int));
    }
    assert(bytes@.subrange(0, bytes@.len() as int) =~= bytes@);
    out
}

impl ConfigState {
    /// The configuration after the device has made the first `n` of the
    /// changes `changes`.
    pub open spec fn changed(self, changes: Seq<Vec<u8>>, n: int) -> Seq<u8> {
        if n <= 0 {
            self.bytes
        } else {
            changes[n - 1]@
        }
    }
}

impl ConfigArea {
    /// The number of bytes of the configuration.
    pub fn len(&self) -> (r: usize)
        requires
            self.wf(),
        ensures
            r == self@.bytes.len(),
    {
        self.bytes.len()
    }

    /// Reads the bytes from offset `from` up to offset `to` for the driver,
    /// as far as the configuration has them.
    fn read_range(&mut self, from: usize, to: usize)
        requires
            old(self).wf(),
            old(self)@.read is Some,
            from <= to,
        ensures
            final(self).wf(),
            final(self)@.epoch == old(self)@.epoch,
            final(self)@.bytes == old(self)@.bytes,
            final(self)@.read is Some,
            final(self)@.read->0.started == old(self)@.read->0.started,
            to <= old(self)@.bytes.len() ==> final(self)@.read->0.value == old(self)@.read->0.value
                + old(self)@.bytes.subrange(from as int, to as int),
    {
        let mut i: usize = from;
        while i < to
            invariant
                from <= i <= to,
                self.wf(),
                self@.epoch == old(self)@.epoch,
                self@.bytes == old(self)@.bytes,
                self@.read is Some,
                self@.read->0.started == old(self)@.read->0.started,
                to <= old(self)@.bytes.len() ==> self@.read->0.value == old(self)@.read->0.value
                    + old(self)@.bytes.subrange(from as int, i as int),
            decreases to - i,
        {
            let ghost before = self@.read->0.value;
            let _ = self.read_byte(i);
            i = i + 1;
            proof {
                if to <= old(self)@.bytes.len() {
                    assert(self@.read->0.value =~= old(self)@.read->0.value 
                        + old(self)@.bytes.subrange(from as int, i as int));
                }
            }
        }
        proof {
            if to <= old(self)@.bytes.len() {
                assert(old(self)@.bytes.subrange(from as int, from as int) =~= Seq::<u8>::empty());
            }
        }
    }

    /// Reads the whole configuration for the driver, again and again until
    /// a read settles and at most `max_attempts` times, while the device
    /// makes the changes `changes`: one in the middle of each read, as long
    /// as changes are left. Returns what was read and how many reads were
    /// made.
    ///
    /// Each read that the device changes the configuration during is
    /// dropped, and the first read after the changes settles: with
    /// `changes.len()` changes, that many reads and one are made, and what
    /// is read is the configuration after the last change, whole, and no mix
    /// of it with an earlier one. Fails with `ConfigReadTimeout` after
    /// `max_attempts` reads where the changes are not fewer than that.
    pub fn read_over(&mut self, changes: &[Vec<u8>], max_attempts: u32) -> (r: (
        Result<Vec<u8>, Error>,
        u32,
    ))
        requires
            old(self).wf(),
        ensures
            final(self).wf(),
            final(self)@.read is None,
            changes@.len() < max_attempts ==> r.1 == changes@.len() + 1 && r.0 is Ok && r.0->Ok_0@
                == old(self)@.changed(changes@, changes@.len() as int) && final(self)@.bytes
                == r.0->Ok_0@ && final(self)@.epoch == old(self)@.epoch + changes@.len(),
            changes@.len() >= max_attempts ==> r.1 == max_attempts && r.0 == Err::<Vec<u8>, Error>(
                Error::ConfigReadTimeout,
            ) && final(self)@.bytes == old(self)@.changed(changes@, max_attempts as int) 
                && final(self)@.epoch == old(self)@.epoch + max_attempts,
    {
        let _ = self.end_read();
        let mut attempts: u32 = 0;
        while attempts < max_attempts
            invariant
                attempts <= max_attempts,
                attempts <= changes@.len(),
                self.wf(),
                self@.read is None,
                self@.epoch == old(self)@.epoch + attempts,
                self@.bytes == old(self)@.changed(changes@, attempts as int),
            decreases max_attempts - attempts,
        {
            let n = self.len();
            self.begin_read();
            if (attempts as usize) < changes.len() {
                self.read_range(0, n / 2);
                self.device_update(copy_bytes(changes[attempts as usize].as_slice()));
                self.read_range(n / 2, n);
                let got = self.end_read();
                assert(got is None);
                attempts = attempts + 1;
            } else {
                self.read_range(0, n);
                let ghost all = self@.bytes;
                let got = self.end_read();
                match got {
                    Some(v) => {
                        assert(v@ =~= all) by {
                            assert(all.subrange(0, n as int) =~= all);
                        }
                        return (Ok(v), attempts + 1);
                    },
                    None => {
                        assert(false);
                        return (Err(Error::ConfigReadTimeout), attempts);
                    },
                }
            }
        }
        (Err(Error::ConfigReadTimeout), attempts)
    }
}

} // verus!
