//! The serial RTK driver's decisions. The driver alternates parse and
//! read phases: a completed sentence is emitted with the timestamp of
//! the last successful read, silence past the receive timeout fails the
//! loop, and otherwise more bytes are read. The port I/O around these
//! decisions stays with the caller.

use vstd::prelude::*;

use crate::nmea::Buffer;
use crate::nmea::is_sentence;
use crate::nmea::starts_sentence;
use crate::nmea::xor_seq;
use crate::sentence::NmeaLine;
use crate::sentence::classify;
use crate::sentence::classify_matches;

verus! {

/// How long one open attempt may take, in milliseconds.
pub const OPEN_TIMEOUT_MS: u64 = 3000;

/// How long the driver waits for a complete line before it fails, in
/// milliseconds.
pub const LINE_RECEIVE_TIMEOUT_MS: u64 = 2500;

/// The capacity of the serial frame window, in bytes.
pub const SERIAL_WINDOW: usize = 256;

/// One decision of the serial event loop.
#[derive(Debug)]
pub enum SerialStep {
    /// A sentence completed: its raw bytes, its classification, its
    /// checksum byte, and the timestamp to report — that of the last
    /// successful read.
    Line(Vec<u8>, NmeaLine, u8, u64),
    /// No line completed within the receive timeout: fail the loop.
    TimedOut,
    /// More bytes are needed: read from the port and come back.
    Read,
}

/// Decide the next step of the serial event loop. `now` is the present
/// time, `last_time` when the last non-empty read happened; both in
/// milliseconds, monotonic.
pub fn serial_step(buf: &mut Buffer<SERIAL_WINDOW>, now: u64, last_time: u64) -> (s:
    SerialStep)
    requires
        old(buf).wf(),
        last_time <= now,
    ensures
        final(buf).wf(),
        final(buf).buf@ == old(buf).buf@,
        final(buf).p_write == old(buf).p_write,
        old(buf).p_read <= final(buf).p_read,
        match s {
            SerialStep::Line(v, line, cs, t) => {
                &&& t == last_time
                &&& is_sentence(v@)
                &&& v@ == old(buf).buf@.subrange(
                    final(buf).p_read - v@.len(),
                    final(buf).p_read as int,
                )
                &&& forall|i: int|
                    old(buf).p_read <= i < final(buf).p_read - v@.len() ==> !starts_sentence(
                        old(buf).buf@,
                        i,
                        old(buf).p_write as int,
                    )
                &&& classify_matches(line, v@)
                &&& cs == xor_seq(v@.subrange(1, v@.len() - 3))
            },
            SerialStep::TimedOut => {
                &&& now - last_time > LINE_RECEIVE_TIMEOUT_MS
                &&& forall|i: int|
                    old(buf).p_read <= i < old(buf).p_write ==> !starts_sentence(
                        old(buf).buf@,
                        i,
                        old(buf).p_write as int,
                    )
            },
            SerialStep::Read => {
                &&& now - last_time <= LINE_RECEIVE_TIMEOUT_MS
                &&& forall|i: int|
                    old(buf).p_read <= i < old(buf).p_write ==> !starts_sentence(
                        old(buf).buf@,
                        i,
                        old(buf).p_write as int,
                    )
                &&& final(buf).p_write - final(buf).p_read < SERIAL_WINDOW
            },
        },
{
    match buf.parse() {
        Some(v) => {
            let (line, cs) = classify(v.as_slice());
            SerialStep::Line(v, line, cs, last_time)
        },
        None => {
            if now - last_time > LINE_RECEIVE_TIMEOUT_MS {
                SerialStep::TimedOut
            } else {
                SerialStep::Read
            }
        },
    }
}

} // verus!
