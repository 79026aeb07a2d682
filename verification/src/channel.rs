//! The message channel's verifiable core: the inbound byte buffer with its
//! incremental framing, and the decisions of the non-blocking read and the
//! retry-until-complete write.
//!
//! The socket itself lives outside the library; its shell reads raw bytes
//! and feeds them here, asks how an I/O error is to be treated, and drives
//! the write loop by the steps this module decides.

use vstd::prelude::*;
use crate::codec::{spec_consumed, spec_frames};
use crate::wire::push_bytes;

verus! {

/// The I/O conditions the channel distinguishes, as reported by the shell.
#[derive(Clone, Copy, Debug, PartialEq, Eq, Structural)]
pub enum IoErrorKind {
    WouldBlock,
    Interrupted,
    ConnectionReset,
    BrokenPipe,
    Other,
}

/// What one non-blocking read attempt means for the connection.
#[derive(Clone, Copy, Debug, PartialEq, Eq, Structural)]
pub enum ReadOutcome {
    /// Nothing to do this call: no data was ready, or the call was
    /// interrupted.
    NoData,
    /// The remote end is gone; the client is to be removed.
    PeerClosed,
    /// An assumption was violated; the failure is surfaced, not swallowed.
    Fatal,
}

/// What a failed write attempt means.
#[derive(Clone, Copy, Debug, PartialEq, Eq, Structural)]
pub enum WriteOutcome {
    /// A transient condition: the write is retried until it completes.
    Retry,
    /// The remote end is gone; the client is to be removed.
    PeerClosed,
    /// An assumption was violated; the failure is surfaced, not swallowed.
    Fatal,
}

/// How a read error is treated: no data ready and interruptions are normal
/// no-ops, a reset or broken pipe means the peer closed, anything else is
/// fatal.
pub open spec fn spec_classify_read(k: IoErrorKind) -> ReadOutcome {
    match k {
        IoErrorKind::WouldBlock => ReadOutcome::NoData,
        IoErrorKind::Interrupted => ReadOutcome::NoData,
        IoErrorKind::ConnectionReset => ReadOutcome::PeerClosed,
        IoErrorKind::BrokenPipe => ReadOutcome::PeerClosed,
        IoErrorKind::Other => ReadOutcome::Fatal,
    }
}

/// How a write error is treated: transient conditions are retried, a reset
/// or broken pipe means the peer closed, anything else is fatal.
pub open spec fn spec_classify_write(k: IoErrorKind) -> WriteOutcome {
    match k {
        IoErrorKind::WouldBlock => WriteOutcome::Retry,
        IoErrorKind::Interrupted => WriteOutcome::Retry,
        IoErrorKind::ConnectionReset => WriteOutcome::PeerClosed,
        IoErrorKind::BrokenPipe => WriteOutcome::PeerClosed,
        IoErrorKind::Other => WriteOutcome::Fatal,
    }
}

/// Classifies one failed read attempt.
pub fn classify_read_error(k: IoErrorKind) -> (r: ReadOutcome)
    ensures
        r == spec_classify_read(k),
{
    match k {
        IoErrorKind::WouldBlock => ReadOutcome::NoData,
        IoErrorKind::Interrupted => ReadOutcome::NoData,
        IoErrorKind::ConnectionReset => ReadOutcome::PeerClosed,
        IoErrorKind::BrokenPipe => ReadOutcome::PeerClosed,
        IoErrorKind::Other => ReadOutcome::Fatal,
    }
}

/// Classifies one failed write attempt.
pub fn classify_write_error(k: IoErrorKind) -> (r: WriteOutcome)
    ensures
        r == spec_classify_write(k),
{
    match k {
        IoErrorKind::WouldBlock => WriteOutcome::Retry,
        IoErrorKind::Interrupted => WriteOutcome::Retry,
        IoErrorKind::ConnectionReset => WriteOutcome::PeerClosed,
        IoErrorKind::BrokenPipe => WriteOutcome::PeerClosed,
        IoErrorKind::Other => WriteOutcome::Fatal,
    }
}

/// After a successful partial write: where the next attempt starts, or that
/// the whole buffer is out.
#[derive(Clone, Copy, Debug, PartialEq, Eq, Structural)]
pub enum SendStep {
    Continue(usize),
    Done,
}

/// Advances the write cursor after `written` bytes of the `len`-byte buffer
/// went out starting at `start`: either more remains, at the new cursor, or
/// the send is complete.
pub fn send_progress(start: usize, written: usize, len: usize) -> (r: SendStep)
    requires
        start <= len,
        written <= len - start,
    ensures
        written < len - start ==> r == SendStep::Continue((start + written) as usize),
        written >= len - start ==> r == SendStep::Done,
{
    if written < len - start {
        SendStep::Continue(start + written)
    } else {
        SendStep::Done
    }
}

/// One connection's inbound buffer: raw bytes as they arrived, with the
/// complete frames at its front extracted on demand.
pub struct Channel {
    pub buffer: Vec<u8>,
}

impl Channel {
    /// An empty inbound buffer.
    pub fn new() -> (r: Channel)
        ensures
            r.buffer@ == Seq::<u8>::empty(),
    {
        let r = Channel { buffer: Vec::new() };
        proof {
            assert(r.buffer@ =~= Seq::<u8>::empty());
        }
        r
    }

    /// Appends bytes that arrived from the stream.
    pub fn feed(&mut self, chunk: &[u8])
        ensures
            final(self).buffer@ == old(self).buffer@ + chunk@,
    {
        push_bytes(&mut self.buffer, chunk);
    }

    /// Extracts every complete frame accumulated so far, in order, keeping
    /// the trailing partial frame for a later call.
    pub fn drain_frames(&mut self) -> (frames: Vec<Vec<u8>>)
        ensures
            frames.deep_view() == spec_frames(old(self).buffer@),
            final(self).buffer@ == old(self).buffer@.skip(
                spec_consumed(old(self).buffer@),
            ),
    {
        let (frames, used) = crate::codec::decode_incremental(&self.buffer);
        let blen = self.buffer.len();
        let mut rest: Vec<u8> = Vec::new();
        let mut i: usize = used;
        proof {
            crate::codec::lemma_consumed_bounds(self.buffer@);
            assert(rest@ =~= self.buffer@.subrange(used as int, used as int));
        }
        while i < blen
            invariant
                used <= i <= blen,
                blen == self.buffer@.len(),
                rest@ == self.buffer@.subrange(used as int, i as int),
            decreases blen - i,
        {
            rest.push(self.buffer[i]);
            proof {
                assert(self.buffer@.subrange(used as int, i + 1) =~= self.buffer@.subrange(
                    used as int,
                    i as int,
                ).push(self.buffer@[i as int]));
            }
            i += 1;
        }
        proof {
            assert(rest@ =~= self.buffer@.skip(used as int));
        }
        self.buffer = rest;
        frames
    }
}

} // verus!
