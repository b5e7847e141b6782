//! The bridge that cross-plumbs the two supervisors: serial events feed
//! the uplink sender of the correction side, correction events feed the
//! downlink receiver of the serial side. Either slot may be empty while
//! its side is down; a datum for an empty slot is dropped, never sent,
//! and neither side's lifecycle ever touches the other slot.

use vstd::prelude::*;

use crate::network::spec_uplink_line;
use crate::network::uplink_line;
use crate::sentence::NmeaLine;

verus! {

/// The two cross-references: the uplink sender handle `S` of the
/// correction side, the downlink receiver handle `R` of the serial side.
pub struct Bridge<S, R> {
    pub uplink: Option<S>,
    pub downlink: Option<R>,
}

/// One lifecycle event of either side, as the bridge sees it.
pub enum BridgeEvent<S, R> {
    CorrectionConnected(S),
    CorrectionDisconnected,
    SerialConnected(R),
    SerialDisconnected,
}

/// The bridge state after one lifecycle event: the event's own slot is
/// replaced or cleared, the other slot untouched.
pub open spec fn bridge_step<S, R>(b: Bridge<S, R>, ev: BridgeEvent<S, R>) -> Bridge<S, R> {
    match ev {
        BridgeEvent::CorrectionConnected(s) => Bridge { uplink: Some(s), downlink: b.downlink },
        BridgeEvent::CorrectionDisconnected => Bridge { uplink: None, downlink: b.downlink },
        BridgeEvent::SerialConnected(r) => Bridge { uplink: b.uplink, downlink: Some(r) },
        BridgeEvent::SerialDisconnected => Bridge { uplink: b.uplink, downlink: None },
    }
}

/// The bridge state after a whole interleaving of lifecycle events.
pub open spec fn bridge_fold<S, R>(b: Bridge<S, R>, evs: Seq<BridgeEvent<S, R>>) -> Bridge<
    S,
    R,
>
    decreases evs.len(),
{
    if evs.len() == 0 {
        b
    } else {
        bridge_step(bridge_fold(b, evs.drop_last()), evs.last())
    }
}

/// What the uplink slot holds after `evs`: the handle of its own side's
/// last lifecycle event, or the initial handle if that side saw none.
pub open spec fn uplink_after<S, R>(init: Option<S>, evs: Seq<BridgeEvent<S, R>>) -> Option<S>
    decreases evs.len(),
{
    if evs.len() == 0 {
        init
    } else {
        match evs.last() {
            BridgeEvent::CorrectionConnected(s) => Some(s),
            BridgeEvent::CorrectionDisconnected => None,
            _ => uplink_after(init, evs.drop_last()),
        }
    }
}

/// What the downlink slot holds after `evs`, symmetrically.
pub open spec fn downlink_after<S, R>(init: Option<R>, evs: Seq<BridgeEvent<S, R>>) -> Option<
    R,
>
    decreases evs.len(),
{
    if evs.len() == 0 {
        init
    } else {
        match evs.last() {
            BridgeEvent::SerialConnected(r) => Some(r),
            BridgeEvent::SerialDisconnected => None,
            _ => downlink_after(init, evs.drop_last()),
        }
    }
}

/// Bridge symmetry: under any interleaving of lifecycle events on the
/// two sides, each slot holds exactly what its own side's last event
/// left there — a handle never survives its side's disconnect, and
/// neither side's events move the other slot.
pub proof fn lemma_bridge_symmetry<S, R>(b: Bridge<S, R>, evs: Seq<BridgeEvent<S, R>>)
    ensures
        bridge_fold(b, evs).uplink == uplink_after(b.uplink, evs),
        bridge_fold(b, evs).downlink == downlink_after(b.downlink, evs),
    decreases evs.len(),
{
    if evs.len() > 0 {
        lemma_bridge_symmetry(b, evs.drop_last());
    }
}

impl<S, R> Bridge<S, R> {
    /// An empty bridge: neither side connected yet.
    pub fn new() -> (b: Self)
        ensures
            b.uplink is None,
            b.downlink is None,
    {
        Bridge { uplink: None, downlink: None }
    }

    /// The correction side connected: hold its uplink sender.
    pub fn on_correction_connected(&mut self, sender: S)
        ensures
            *final(self) == bridge_step(*old(self), BridgeEvent::CorrectionConnected(sender)),
    {
        self.uplink = Some(sender);
    }

    /// The correction side disconnected: drop its uplink sender.
    pub fn on_correction_disconnected(&mut self)
        ensures
            *final(self) == bridge_step(
                *old(self),
                BridgeEvent::<S, R>::CorrectionDisconnected,
            ),
    {
        self.uplink = None;
    }

    /// The serial side connected: hold its downlink receiver.
    pub fn on_serial_connected(&mut self, receiver: R)
        ensures
            *final(self) == bridge_step(*old(self), BridgeEvent::SerialConnected(receiver)),
    {
        self.downlink = Some(receiver);
    }

    /// The serial side disconnected: drop its downlink receiver.
    pub fn on_serial_disconnected(&mut self)
        ensures
            *final(self) == bridge_step(*old(self), BridgeEvent::<S, R>::SerialDisconnected),
    {
        self.downlink = None;
    }

    /// Where a correction datum goes: the downlink receiver when the
    /// serial side is up, nowhere when it is down. A datum is never
    /// routed to an empty slot.
    pub fn downlink_target(&self) -> (t: Option<&R>)
        ensures
            match t {
                Some(h) => self.downlink == Some(*h),
                None => self.downlink is None,
            },
    {
        match &self.downlink {
            Some(h) => Some(h),
            None => None,
        }
    }

    /// What a serial line produces uplink: the rebuilt `GPGGA` wire
    /// bytes and the sender to write them with, when the line is a GGA
    /// report and the correction side is up; nothing otherwise. A frame
    /// is never produced for an empty slot, and lines of other types are
    /// not forwarded.
    pub fn uplink_frame(&self, line: &NmeaLine, cs: u8) -> (o: Option<(&S, Vec<u8>)>)
        ensures
            match o {
                Some(sv) => {
                    &&& self.uplink == Some(*sv.0)
                    &&& line matches NmeaLine::GPGGA(h, t) && sv.1@ == spec_uplink_line(t@, cs)
                },
                None => self.uplink is None || !(line is GPGGA),
            },
    {
        match &self.uplink {
            Some(sender) => match line {
                NmeaLine::GPGGA(_, tail) => Some((sender, uplink_line(tail.as_slice(), cs))),
                _ => None,
            },
            None => None,
        }
    }
}

} // verus!
