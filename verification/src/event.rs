//! Event suppression: what one side of a queue asks of the other about
//! notifications and interrupts.
//!
//! Each direction has a control of its own. The driver's control says when
//! the device shall interrupt it for used buffers; the device's control
//! says when the driver shall notify it of available buffers.

use vstd::prelude::*;
use crate::RingEventFlags;
use crate::error::Error;
use crate::pvirtq::EventSuppress;
use crate::ring::{lemma_near, slot_at, wrap_at};

verus! {

/// How far index `b` of a ring of 16-bit indices lies after index `a`.
pub open spec fn index_distance(a: u16, b: u16) -> int {
    (b - a) % 65536
}

/// Whether moving the index of a ring from `old` to `new` has passed the
/// index `event`: `event` is `old` or lies after it, and before `new`.
pub open spec fn passed(event: u16, old: u16, new: u16) -> bool {
    index_distance(old, event) < index_distance(old, new)
}

/// Tests whether moving the index of a ring from `old` to `new` has passed
/// the index `event`.
pub fn need_event(event: u16, new: u16, old: u16) -> (r: bool)
    ensures
        r == passed(event, old, new),
{
    new.wrapping_sub(event).wrapping_sub(1) < new.wrapping_sub(old)
}

/// How many slots after the slot `pos` of a lap with wrap counter `wrap`
/// the slot `off` of a lap with wrap counter `off_wrap` lies, where both are
/// slots of the ring and it lies less than a lap after it.
pub open spec fn packed_offset(pos: int, wrap: bool, off: int, off_wrap: bool, size: int) -> Option<
    int,
> {
    if !(0 <= pos < size) {
        None
    } else if off_wrap == wrap {
        if pos <= off < size {
            Some(off - pos)
        } else {
            None
        }
    } else {
        if 0 <= off < pos {
            Some(off + size - pos)
        } else {
            None
        }
    }
}

/// Whether handing over `count` descriptors from the slot `pos` of a lap
/// with wrap counter `wrap` on has passed the slot `off` of a lap with wrap
/// counter `off_wrap`.
pub open spec fn packed_passed(
    pos: int,
    wrap: bool,
    count: int,
    off: int,
    off_wrap: bool,
    size: int,
) -> bool {
    packed_offset(pos, wrap, off, off_wrap, size) matches Some(k) && k < count
}

/// The slot and the wrap counter of a running count that lies less than a
/// lap after another are as many slots after those of the other as the two
/// counts are apart, so that a batch of descriptors passes the position of
/// exactly the counts in it.
pub proof fn lemma_packed_offset(from: int, event: int, size: int)
    requires
        size > 0,
        from <= event < from + size,
    ensures
        packed_offset(
            slot_at(from, size),
            wrap_at(from, size),
            slot_at(event, size),
            wrap_at(event, size),
            size,
        ) == Some(event - from),
        forall|count: int|
            0 <= count <= size ==> (#[trigger] packed_passed(
                slot_at(from, size),
                wrap_at(from, size),
                count,
                slot_at(event, size),
                wrap_at(event, size),
                size,
            ) <==> event < from + count),
{
    lemma_near(from, event, size);
}

/// What one side asks of the other about events.
#[derive(Clone, Copy, Debug, PartialEq, Eq, Structural)]
pub struct EventControl {
    negotiated: bool,
    mode: RingEventFlags,
    off: u16,
    wrap: bool,
}

/// What an [`EventControl`] holds.
pub struct EventControlView {
    /// Whether events for a specific descriptor were negotiated.
    pub negotiated: bool,
    /// Whether events are enabled, disabled, or asked for at a specific
    /// descriptor.
    pub mode: RingEventFlags,
    /// The index, or the slot, of the descriptor at which an event is asked
    /// for.
    pub off: u16,
    /// The wrap counter of the lap in which that slot is meant, in a packed
    /// ring.
    pub wrap: bool,
}

impl EventControlView {
    /// Whether the other side shall send an event after it has moved the
    /// index of a split ring from `old` to `new`.
    pub open spec fn signals_split(self, old: u16, new: u16) -> bool {
        match self.mode {
            RingEventFlags::Enable => true,
            RingEventFlags::Disable => false,
            RingEventFlags::Desc => passed(self.off, old, new),
            RingEventFlags::Reserved => false,
        }
    }

    /// Whether the other side shall send an event after it has handed over
    /// `count` descriptors of a packed ring of `size` slots, from the slot
    /// `pos` of a lap with wrap counter `wrap` on.
    pub open spec fn signals_packed(self, pos: u16, wrap: bool, count: u16, size: u16) -> bool {
        match self.mode {
            RingEventFlags::Enable => true,
            RingEventFlags::Disable => false,
            RingEventFlags::Desc => packed_passed(
                pos as int,
                wrap,
                count as int,
                self.off as int,
                self.wrap,
                size as int,
            ),
            RingEventFlags::Reserved => false,
        }
    }
}

impl EventControl {
    /// What the control holds.
    pub closed spec fn view(self) -> EventControlView {
        EventControlView {
            negotiated: self.negotiated,
            mode: self.mode,
            off: self.off,
            wrap: self.wrap,
        }
    }

    /// What every operation keeps: events are asked for at a specific
    /// descriptor only where that was negotiated, and the reserved value is
    /// never held.
    pub open spec fn wf(self) -> bool {
        &&& self@.mode == RingEventFlags::Desc ==> self@.negotiated
        &&& self@.mode != RingEventFlags::Reserved
    }

    /// A control that enables events. `negotiated` says whether events for
    /// a specific descriptor were negotiated.
    pub fn new(negotiated: bool) -> (r: EventControl)
        ensures
            r.wf(),
            r@ == (EventControlView {
                negotiated,
                mode: RingEventFlags::Enable,
                off: 0,
                wrap: false,
            }),
    {
        EventControl { negotiated, mode: RingEventFlags::Enable, off: 0, wrap: false }
    }

    /// Whether events are enabled, disabled, or asked for at a specific
    /// descriptor.
    pub fn mode(&self) -> (r: RingEventFlags)
        ensures
            r == self@.mode,
    {
        self.mode
    }

    /// The index, or the slot, of the descriptor at which an event is asked
    /// for, where one is.
    pub fn off(&self) -> (r: u16)
        ensures
            r == self@.off,
    {
        self.off
    }

    /// Asks for an event on every transaction.
    pub fn enable(&mut self)
        requires
            old(self).wf(),
        ensures
            final(self).wf(),
            final(self)@ == (EventControlView { mode: RingEventFlags::Enable, ..old(self)@ }),
    {
        self.mode = RingEventFlags::Enable;
    }

    /// Asks for no event.
    pub fn disable(&mut self)
        requires
            old(self).wf(),
        ensures
            final(self).wf(),
            final(self)@ == (EventControlView { mode: RingEventFlags::Disable, ..old(self)@ }),
    {
        self.mode = RingEventFlags::Disable;
    }

    /// Asks for an event once the other side has passed the descriptor at
    /// `off`, in a packed ring in the lap whose wrap counter is `wrap`.
    ///
    /// Fails with `UnsupportedFeature`, and leaves the control as it is,
    /// where events for a specific descriptor were not negotiated.
    pub fn set_desc(&mut self, off: u16, wrap: bool) -> (r: Result<(), Error>)
        requires
            old(self).wf(),
        ensures
            final(self).wf(),
            !old(self)@.negotiated ==> r == Err::<(), Error>(Error::UnsupportedFeature) && final(self)@ == old(self)@,
            old(self)@.negotiated ==> r is Ok && final(self)@ == (EventControlView {
                mode: RingEventFlags::Desc,
                off,
                wrap,
                ..old(self)@
            }),
    {
        if !self.negotiated {
            return Err(Error::UnsupportedFeature);
        }
        self.mode = RingEventFlags::Desc;
        self.off = off;
        self.wrap = wrap;
        Ok(())
    }

    /// Decides for the other side of a split ring whether to send an event
    /// after it has moved its index from `old` to `new`: always where events
    /// are enabled, never where they are disabled, and else where the move
    /// has passed the index that was asked for.
    pub fn signal_split(&self, old: u16, new: u16) -> (r: bool)
        ensures
            r == self@.signals_split(old, new),
    {
        match self.mode {
            RingEventFlags::Enable => true,
            RingEventFlags::Disable => false,
            RingEventFlags::Desc => need_event(self.off, new, old),
            RingEventFlags::Reserved => false,
        }
    }

    /// Decides for the other side of a packed ring of `size` slots whether
    /// to send an event after it has handed over `count` descriptors, from
    /// the slot `pos` of a lap with wrap counter `wrap` on: always where
    /// events are enabled, never where they are disabled, and else where
    /// these descriptors include the one that was asked for.
    pub fn signal_packed(&self, pos: u16, wrap: bool, count: u16, size: u16) -> (r: bool)
        ensures
            r == self@.signals_packed(pos, wrap, count, size),
    {
        match self.mode {
            RingEventFlags::Enable => true,
            RingEventFlags::Disable => false,
            RingEventFlags::Desc => {
                if pos >= size {
                    false
                } else if self.wrap == wrap {
                    pos <= self.off && self.off < size && self.off - pos < count
                } else {
                    self.off < pos && (self.off as u32 + size as u32 - pos as u32) < count as u32
                }
            },
            RingEventFlags::Reserved => false,
        }
    }

    /// The flags field of a split ring that says what the control asks:
    /// 1, which asks for no event, where events are disabled, and 0 else.
    pub fn split_flags(&self) -> (r: u16)
        ensures
            r == (if self@.mode == RingEventFlags::Disable { 1u16 } else { 0u16 }),
    {
        match self.mode {
            RingEventFlags::Disable => 1,
            _ => 0,
        }
    }

    /// The event suppression structure of a packed ring that says what the
    /// control asks.
    pub fn to_suppress(&self) -> (r: EventSuppress)
        ensures
            r == (EventSuppress {
                desc_event_off: self@.off,
                desc_event_wrap: self@.wrap,
                desc_event_flags: self@.mode,
            }),
    {
        EventSuppress {
            desc_event_off: self.off,
            desc_event_wrap: self.wrap,
            desc_event_flags: self.mode,
        }
    }

    /// Takes over what an event suppression structure of a packed ring
    /// asks.
    ///
    /// Fails with `UnsupportedFeature`, and leaves the control as it is,
    /// where the structure asks for an event at a specific descriptor and
    /// that was not negotiated, or where it holds the reserved value.
    pub fn apply(&mut self, suppress: EventSuppress) -> (r: Result<(), Error>)
        requires
            old(self).wf(),
        ensures
            final(self).wf(),
            ({
                let refused = suppress.desc_event_flags == RingEventFlags::Reserved || (
                suppress.desc_event_flags == RingEventFlags::Desc && !old(self)@.negotiated);
                &&& refused ==> r == Err::<(), Error>(Error::UnsupportedFeature) && final(self)@
                    == old(self)@
                &&& !refused ==> r is Ok && final(self)@ == (EventControlView {
                    mode: suppress.desc_event_flags,
                    off: suppress.desc_event_off,
                    wrap: suppress.desc_event_wrap,
                    ..old(self)@
                })
            }),
    {
        match suppress.desc_event_flags {
            RingEventFlags::Reserved => {
                return Err(Error::UnsupportedFeature);
            },
            RingEventFlags::Desc => {
                if !self.negotiated {
                    return Err(Error::UnsupportedFeature);
                }
            },
            _ => {},
        }
        self.mode = suppress.desc_event_flags;
        self.off = suppress.desc_event_off;
        self.wrap = suppress.desc_event_wrap;
        Ok(())
    }
}

} // verus!
