//! The connection actor's decision core: the connect/teardown state
//! machine, the write-then-register rule, response dispatch by opaque id,
//! and the caller-side two-checkpoint outcome.  One cooperative task owns a
//! value of this type together with the socket; the surrounding I/O loop
//! performs the socket work and feeds every event back in here.

use crate::command::Command;
use crate::command::CommandModel;
use crate::command::spec_decode_frame;
use crate::pending::spec_table_lookup;
use crate::pending::spec_table_remove;
use crate::pending::spec_table_wf;
use crate::pending::PendingTable;
use crate::reassembly::spec_frame_split;
use crate::reassembly::ReassemblyBuffer;
use vstd::prelude::*;

verus! {

/// The actor's lifecycle: no socket yet (or torn down), a live socket, or
/// shut down for good.
pub enum ConnState {
    Disconnected,
    Connected,
    ShutDown,
}

/// The typed failures a caller can see.
#[derive(Debug)]
pub enum TransportError {
    /// No connection could be established when the request was serviced.
    Unavailable,
    /// The socket write failed part-way; the connection is torn down.
    WriteFailed,
    /// A wait for the write acknowledgement or for the response exceeded
    /// the configured duration.
    Timeout,
    /// The bounded submission queue was full; the request was refused at
    /// once rather than queued unboundedly.
    QueueFull,
    /// The channel shut down before the request could complete.
    ChannelClosed,
}

impl TransportError {
    /// A short description of the error, mirroring its variant.
    pub fn message(&self) -> (r: &'static str)
        ensures
            (self is Unavailable ==> r@ == "transport unavailable"@),
            (self is WriteFailed ==> r@ == "write failed"@),
            (self is Timeout ==> r@ == "request timed out"@),
            (self is QueueFull ==> r@ == "submission queue full"@),
            (self is ChannelClosed ==> r@ == "channel closed"@),
    {
        match self {
            TransportError::Unavailable => "transport unavailable",
            TransportError::WriteFailed => "write failed",
            TransportError::Timeout => "request timed out",
            TransportError::QueueFull => "submission queue full",
            TransportError::ChannelClosed => "channel closed",
        }
    }
}

/// What servicing buffered bytes yields: the deliveries made, the bytes
/// left in the buffer, and the table afterwards.  A frame that does not
/// decode, or whose opaque matches nothing in flight, is dropped silently.
pub open spec fn spec_drain<T>(s: Seq<u8>, tbl: Seq<(usize, T)>) -> (
    Seq<(T, CommandModel)>,
    Seq<u8>,
    Seq<(usize, T)>,
)
    decreases s.len(),
    when true
    via spec_drain_decreases::<T>
{
    match spec_frame_split(s) {
        None => (Seq::empty(), s, tbl),
        Some((f, r)) => match spec_decode_frame(f) {
            None => spec_drain(r, tbl),
            Some(c) => match spec_table_lookup(tbl, c.header.opaque) {
                None => spec_drain(r, tbl),
                Some(slot) => {
                    let rec = spec_drain(r, spec_table_remove(tbl, c.header.opaque));
                    (seq![(slot, c)] + rec.0, rec.1, rec.2)
                },
            },
        },
    }
}

#[via_fn]
proof fn spec_drain_decreases<T>(s: Seq<u8>, tbl: Seq<(usize, T)>) {
    match spec_frame_split(s) {
        None => {},
        Some((f, r)) => {
            assert(r.len() < s.len());
        },
    }
}

/// The delivery view of an executable delivery list.
pub open spec fn deliveries_view<T>(v: Seq<(T, Command)>) -> Seq<(T, CommandModel)> {
    v.map_values(|p: (T, Command)| (p.0, p.1@))
}

/// The state one connection actor owns besides the socket itself: the
/// lifecycle, the in-flight table, and the read-reassembly buffer.
pub struct ChannelCore<T> {
    pub state: ConnState,
    pub pending: PendingTable<T>,
    pub buffer: ReassemblyBuffer,
}

impl<T> ChannelCore<T> {
    /// The in-flight table never holds two entries under one id.
    pub open spec fn wf(self) -> bool {
        spec_table_wf(self.pending@)
    }

    /// A fresh actor: no socket, nothing in flight, nothing buffered.
    pub fn new() -> (r: Self)
        ensures
            r.state is Disconnected,
            r.pending@ == Seq::<(usize, T)>::empty(),
            r.buffer@ == Seq::<u8>::empty(),
            r.wf(),
    {
        ChannelCore {
            state: ConnState::Disconnected,
            pending: PendingTable::new(),
            buffer: ReassemblyBuffer::new(),
        }
    }

    /// A connect attempt succeeded: the actor now owns a live socket.
    pub fn connect_succeeded(&mut self)
        requires
            old(self).state is Disconnected,
        ensures
            final(self).state is Connected,
            final(self).pending@ == old(self).pending@,
            final(self).buffer@ == old(self).buffer@,
    {
        self.state = ConnState::Connected;
    }

    /// A connect attempt failed: the requesting caller gets a
    /// transport-unavailable error, the actor stays disconnected, and the
    /// next request will retry.
    pub fn connect_failed(&mut self) -> (e: TransportError)
        requires
            old(self).state is Disconnected,
        ensures
            final(self).state is Disconnected,
            final(self).pending@ == old(self).pending@,
            final(self).buffer@ == old(self).buffer@,
            e is Unavailable,
    {
        TransportError::Unavailable
    }

    /// The whole encoded frame of the request under `opaque` reached the
    /// socket; only now is interest in a response registered.  The id is
    /// fresh: the process-wide allocator never repeats one.
    pub fn after_write_success(&mut self, opaque: usize, slot: T)
        requires
            old(self).state is Connected,
            old(self).wf(),
            spec_table_lookup(old(self).pending@, opaque) is None,
        ensures
            final(self).state is Connected,
            final(self).wf(),
            final(self).pending@ == old(self).pending@ + seq![(opaque, slot)],
            final(self).buffer@ == old(self).buffer@,
    {
        self.pending.insert(opaque, slot);
    }

    /// A socket write failed: the caller is told, no pending entry was
    /// made for that request, and the socket is torn down so the next
    /// request reconnects.
    pub fn write_failed(&mut self) -> (e: TransportError)
        requires
            old(self).state is Connected,
        ensures
            final(self).state is Disconnected,
            final(self).pending@ == old(self).pending@,
            final(self).buffer@ == old(self).buffer@,
            e is WriteFailed,
    {
        self.state = ConnState::Disconnected;
        TransportError::WriteFailed
    }

    /// A read returned zero bytes: the peer closed.  The actor returns to
    /// disconnected; requests already in flight are not failed here — each
    /// caller's own timeout ends its wait.
    pub fn on_peer_closed(&mut self)
        requires
            old(self).state is Connected,
        ensures
            final(self).state is Disconnected,
            final(self).pending@ == old(self).pending@,
            final(self).buffer@ == old(self).buffer@,
    {
        self.state = ConnState::Disconnected;
    }

    /// The shutdown signal: the actor leaves its loop and services nothing
    /// further.
    pub fn on_shutdown(&mut self)
        ensures
            final(self).state is ShutDown,
            final(self).pending@ == old(self).pending@,
            final(self).buffer@ == old(self).buffer@,
    {
        self.state = ConnState::ShutDown;
    }

    /// Bytes arrived on the socket: buffer them, cut off every complete
    /// frame, decode each, and deliver each response to the caller whose
    /// opaque id matches, consuming that entry.  Malformed frames and
    /// unmatched ids are dropped silently.
    pub fn on_bytes(&mut self, chunk: &[u8]) -> (deliveries: Vec<(T, Command)>)
        requires
            old(self).state is Connected,
            old(self).wf(),
        ensures
            final(self).state is Connected,
            final(self).wf(),
            ({
                let rec = spec_drain(old(self).buffer@ + chunk@, old(self).pending@);
                &&& deliveries_view(deliveries@) == rec.0
                &&& final(self).buffer@ == rec.1
                &&& final(self).pending@ == rec.2
            }),
    {
        self.buffer.feed(chunk);
        let ghost total0 = self.buffer@;
        let ghost tbl0 = self.pending@;
        let mut deliveries: Vec<(T, Command)> = Vec::new();
        loop
            invariant
                self.state is Connected,
                self.wf(),
                ({
                    let rec = spec_drain(self.buffer@, self.pending@);
                    let rec0 = spec_drain(total0, tbl0);
                    &&& rec0.0 == deliveries_view(deliveries@) + rec.0
                    &&& rec0.1 == rec.1
                    &&& rec0.2 == rec.2
                }),
            ensures
                self.state is Connected,
                self.wf(),
                spec_frame_split(self.buffer@) is None,
                ({
                    let rec0 = spec_drain(total0, tbl0);
                    &&& rec0.0 == deliveries_view(deliveries@)
                    &&& rec0.1 == self.buffer@
                    &&& rec0.2 == self.pending@
                }),
            decreases self.buffer@.len(),
        {
            let ghost buf_pre = self.buffer@;
            let ghost tbl_pre = self.pending@;
            match self.buffer.try_take_frame() {
                None => {
                    proof {
                        let rec = spec_drain(buf_pre, tbl_pre);
                        assert(rec.0 == Seq::<(T, CommandModel)>::empty());
                        assert(deliveries_view(deliveries@) + rec.0 =~= deliveries_view(
                            deliveries@,
                        ));
                    }
                    break ;
                },
                Some(frame) => {
                    match Command::decode(frame.as_slice()) {
                        Err(_) => {},
                        Ok(cmd) => {
                            let op = cmd.opaque();
                            match self.pending.remove(op) {
                                None => {},
                                Some(slot) => {
                                    let ghost dv_pre = deliveries@;
                                    deliveries.push((slot, cmd));
                                    proof {
                                        let rec = spec_drain(self.buffer@, self.pending@);
                                        assert(deliveries_view(deliveries@) =~= deliveries_view(
                                            dv_pre,
                                        ) + seq![(slot, cmd@)]);
                                        assert(deliveries_view(dv_pre) + (seq![(slot, cmd@)]
                                            + rec.0) =~= deliveries_view(deliveries@) + rec.0);
                                    }
                                },
                            }
                        },
                    }
                },
            }
        }
        deliveries
    }
}

/// The caller-side outcome of one request, after the two awaited
/// checkpoints: the write acknowledgement, then the response.  `None`
/// stands for a wait that exceeded the configured timeout.  Either phase
/// timing out fails the request with a timeout error; a failure reported
/// at either checkpoint — a write error, or a channel that went away
/// before responding — is passed through; otherwise the response is the
/// result.
pub fn request_outcome(
    write_ack: Option<Result<(), TransportError>>,
    response: Option<Result<Command, TransportError>>,
) -> (r: Result<Command, TransportError>)
    ensures
        match write_ack {
            None => r matches Err(e) && e is Timeout,
            Some(Err(we)) => r matches Err(e) && e == we,
            Some(Ok(())) => match response {
                None => r matches Err(e) && e is Timeout,
                Some(Err(re)) => r matches Err(e) && e == re,
                Some(Ok(c)) => r matches Ok(rc) && rc@ == c@,
            },
        },
{
    match write_ack {
        None => Err(TransportError::Timeout),
        Some(Err(we)) => Err(we),
        Some(Ok(())) => match response {
            None => Err(TransportError::Timeout),
            Some(Err(re)) => Err(re),
            Some(Ok(c)) => Ok(c),
        },
    }
}

} // verus!
