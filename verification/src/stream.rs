//! The byte queues between a modem protocol worker and the terminal transport.
use vstd::prelude::*;

use std::collections::VecDeque;

use crate::error::ModemTransferError;
use crate::io::ModemIo;

verus! {

/// Bound on remote output buffered for the protocol worker.
pub const MODEM_REMOTE_OUTPUT_BUFFER_BYTES: usize = 4194304;

/// Bound on protocol output queued for the transport (one oversized write may exceed it).
pub const MODEM_SERVER_WRITE_BUFFER_BYTES: usize = 1048576;

/// The abstract state of a transfer.
pub ghost struct TransferState {
    /// Remote output not yet read by the protocol.
    pub remote_output: Seq<u8>,
    /// Protocol output waiting for the transport, oldest first.
    pub server_writes: Seq<Seq<u8>>,
    /// Bytes accounted as queued or in flight.
    pub server_write_bytes: nat,
    /// Bytes handed to the transport and not yet completed.
    pub in_flight_bytes: nat,
    /// The protocol's abort sequence, queued on cancellation.
    pub cancellation: Seq<u8>,
    pub input_overflow: bool,
    pub stopped: bool,
}

pub open spec fn sat_add(a: nat, b: nat) -> nat {
    if a + b > usize::MAX {
        usize::MAX as nat
    } else {
        a + b
    }
}

pub open spec fn sat_sub(a: nat, b: nat) -> nat {
    if a < b {
        0
    } else {
        (a - b) as nat
    }
}

pub open spec fn total_len(s: Seq<Seq<u8>>) -> nat
    decreases s.len(),
{
    if s.len() == 0 {
        0
    } else {
        total_len(s.drop_last()) + s.last().len()
    }
}

/// The state of a fresh transfer.
pub open spec fn initial_state(initial: Seq<u8>, cancellation: Seq<u8>) -> TransferState {
    TransferState {
        remote_output: initial,
        server_writes: Seq::empty(),
        server_write_bytes: 0,
        in_flight_bytes: 0,
        cancellation,
        input_overflow: false,
        stopped: false,
    }
}

/// Cancellation: remote output is dropped and unsent writes are replaced by
/// the abort sequence. Cancelling twice changes nothing.
pub open spec fn cancelled(s: TransferState) -> TransferState {
    if s.stopped {
        s
    } else {
        let bytes = sat_sub(s.server_write_bytes, total_len(s.server_writes));
        if s.cancellation.len() == 0 {
            TransferState {
                stopped: true,
                remote_output: Seq::empty(),
                server_writes: Seq::empty(),
                server_write_bytes: bytes,
                ..s
            }
        } else {
            TransferState {
                stopped: true,
                remote_output: Seq::empty(),
                server_writes: seq![s.cancellation],
                server_write_bytes: sat_add(bytes, s.cancellation.len()),
                ..s
            }
        }
    }
}

/// Remote output arriving from the transport.
pub open spec fn after_push(s: TransferState, bytes: Seq<u8>) -> TransferState {
    if bytes.len() == 0 || s.stopped {
        s
    } else if sat_add(s.remote_output.len(), bytes.len()) > MODEM_REMOTE_OUTPUT_BUFFER_BYTES {
        cancelled(TransferState { remote_output: Seq::empty(), input_overflow: true, ..s })
    } else {
        TransferState { remote_output: s.remote_output + bytes, ..s }
    }
}

/// The transport taking the oldest queued write.
pub open spec fn after_take(s: TransferState) -> TransferState {
    if s.server_writes.len() == 0 {
        s
    } else {
        TransferState {
            server_writes: s.server_writes.drop_first(),
            in_flight_bytes: sat_add(s.in_flight_bytes, s.server_writes[0].len()),
            ..s
        }
    }
}

/// The transport reporting `n` bytes as written.
pub open spec fn after_complete(s: TransferState, n: nat) -> TransferState {
    TransferState {
        in_flight_bytes: sat_sub(s.in_flight_bytes, n),
        server_write_bytes: sat_sub(s.server_write_bytes, n),
        ..s
    }
}

/// The transport giving a taken write back, to be sent first.
pub open spec fn after_restore(s: TransferState, bytes: Seq<u8>) -> TransferState {
    TransferState {
        in_flight_bytes: sat_sub(s.in_flight_bytes, bytes.len()),
        server_writes: seq![bytes] + s.server_writes,
        ..s
    }
}

/// Whether a protocol write of `n` bytes can be queued now.
pub open spec fn accepts_write(s: TransferState, n: nat) -> bool {
    sat_add(s.server_write_bytes, n) <= MODEM_SERVER_WRITE_BUFFER_BYTES || (s.server_write_bytes
        == 0 && s.in_flight_bytes == 0)
}

/// Protocol output queued for the transport.
pub open spec fn after_write(s: TransferState, bytes: Seq<u8>) -> TransferState {
    TransferState {
        server_write_bytes: sat_add(s.server_write_bytes, bytes.len()),
        server_writes: s.server_writes.push(bytes),
        ..s
    }
}

/// The queues between one modem protocol run and the terminal transport.
///
/// The terminal side pushes remote output and takes protocol writes; the
/// protocol side reads and writes through `ModemIo`. Sharing between threads,
/// waiting and waking the host are the host's concern.
pub struct ModemTransfer {
    remote_output: VecDeque<u8>,
    server_writes: VecDeque<Vec<u8>>,
    server_write_bytes: usize,
    server_write_in_flight_bytes: usize,
    cancellation_bytes: Vec<u8>,
    input_overflow: bool,
    stopped: bool,
    sent_log: Ghost<Seq<u8>>,
    received_log: Ghost<Seq<u8>>,
}

pub open spec fn writes_view(w: Seq<Vec<u8>>) -> Seq<Seq<u8>> {
    Seq::new(w.len(), |i: int| w[i]@)
}

impl View for ModemTransfer {
    type V = TransferState;

    closed spec fn view(&self) -> TransferState {
        TransferState {
            remote_output: self.remote_output@,
            server_writes: writes_view(self.server_writes@),
            server_write_bytes: self.server_write_bytes as nat,
            in_flight_bytes: self.server_write_in_flight_bytes as nat,
            cancellation: self.cancellation_bytes@,
            input_overflow: self.input_overflow,
            stopped: self.stopped,
        }
    }
}

impl ModemTransfer {
    pub fn new(initial_remote_output: &[u8]) -> (r: Self)
        ensures
            r@ == initial_state(initial_remote_output@, Seq::empty()),
    {
        let none: Vec<u8> = Vec::new();
        Self::new_with_cancellation(initial_remote_output, none.as_slice())
    }

    /// A transfer whose cancellation queues `cancellation_bytes` for the peer.
    pub fn new_with_cancellation(
        initial_remote_output: &[u8],
        cancellation_bytes: &[u8],
    ) -> (r: Self)
        ensures
            r@ == initial_state(initial_remote_output@, cancellation_bytes@),
    {
        let mut remote_output: VecDeque<u8> = VecDeque::new();
        let mut i: usize = 0;
        while i < initial_remote_output.len()
            invariant
                i <= initial_remote_output@.len(),
                remote_output@ == initial_remote_output@.subrange(0, i as int),
            decreases initial_remote_output.len() - i,
        {
            remote_output.push_back(initial_remote_output[i]);
            i = i + 1;
            assert(remote_output@ =~= initial_remote_output@.subrange(0, i as int));
        }
        assert(initial_remote_output@.subrange(0, i as int) =~= initial_remote_output@);
        let mut cancel: Vec<u8> = Vec::new();
        cancel.extend_from_slice(cancellation_bytes);
        assert(cancel@ =~= cancellation_bytes@);
        let r = ModemTransfer {
            remote_output,
            server_writes: VecDeque::new(),
            server_write_bytes: 0,
            server_write_in_flight_bytes: 0,
            cancellation_bytes: cancel,
            input_overflow: false,
            stopped: false,
            sent_log: Ghost(Seq::empty()),
            received_log: Ghost(Seq::empty()),
        };
        assert(writes_view(r.server_writes@) =~= Seq::<Seq<u8>>::empty());
        assert(r@ == initial_state(initial_remote_output@, cancellation_bytes@));
        r
    }

    fn queued_total(&self) -> (r: usize)
        ensures
            r as nat == sat_add(0, total_len(self@.server_writes)) || (total_len(
                self@.server_writes,
            ) > usize::MAX && r == usize::MAX),
            total_len(self@.server_writes) <= usize::MAX ==> r as nat == total_len(
                self@.server_writes,
            ),
    {
        let ghost w = writes_view(self.server_writes@);
        let mut total: usize = 0;
        let mut saturated = false;
        let mut i: usize = 0;
        while i < self.server_writes.len()
            invariant
                i <= self.server_writes@.len(),
                w == writes_view(self.server_writes@),
                !saturated ==> total as nat == total_len(w.subrange(0, i as int)),
                saturated ==> total == usize::MAX && total_len(w.subrange(0, i as int))
                    > usize::MAX,
            decreases self.server_writes.len() - i,
        {
            assert(w.subrange(0, i + 1).drop_last() =~= w.subrange(0, i as int));
            let len = self.server_writes[i].len();
            if saturated || total > usize::MAX - len {
                saturated = true;
                total = usize::MAX;
            } else {
                total = total + len;
            }
            i = i + 1;
        }
        assert(w.subrange(0, w.len() as int) =~= w);
        total
    }

    fn cancel_locked(&mut self)
        ensures
            final(self)@ == cancelled(old(self)@),
            final(self).sent_log == old(self).sent_log,
            final(self).received_log == old(self).received_log,
    {
        if self.stopped {
            return;
        }
        self.stopped = true;
        self.remote_output.clear();
        let queued = self.queued_total();
        self.server_writes.clear();
        self.server_write_bytes = self.server_write_bytes.saturating_sub(queued);
        if self.cancellation_bytes.len() > 0 {
            let cancellation = self.cancellation_bytes.clone();
            self.server_write_bytes = self.server_write_bytes.saturating_add(cancellation.len());
            self.server_writes.push_back(cancellation);
        }
        assert(self@.server_writes =~= cancelled(old(self)@).server_writes);
        assert(self@.remote_output =~= cancelled(old(self)@).remote_output);
    }

    /// Remote output arriving from the terminal transport. Overflowing the
    /// input buffer cancels the transfer.
    pub fn push_remote_output(&mut self, bytes: &[u8])
        ensures
            final(self)@ == after_push(old(self)@, bytes@),
    {
        if bytes.len() == 0 {
            return;
        }
        if self.stopped {
            return;
        }
        if self.remote_output.len().saturating_add(bytes.len()) > MODEM_REMOTE_OUTPUT_BUFFER_BYTES {
            self.remote_output.clear();
            self.input_overflow = true;
            self.cancel_locked();
            return;
        }
        let mut i: usize = 0;
        while i < bytes.len()
            invariant
                i <= bytes@.len(),
                self.remote_output@ == old(self).remote_output@ + bytes@.subrange(0, i as int),
                self.server_writes == old(self).server_writes,
                self.server_write_bytes == old(self).server_write_bytes,
                self.server_write_in_flight_bytes == old(self).server_write_in_flight_bytes,
                self.cancellation_bytes == old(self).cancellation_bytes,
                self.input_overflow == old(self).input_overflow,
                self.stopped == old(self).stopped,
            decreases bytes.len() - i,
        {
            self.remote_output.push_back(bytes[i]);
            i = i + 1;
            assert(self.remote_output@ =~= old(self).remote_output@ + bytes@.subrange(0, i as int));
        }
        assert(bytes@.subrange(0, i as int) =~= bytes@);
    }

    /// Hands the oldest queued protocol write to the transport.
    pub fn take_server_write(&mut self) -> (r: Option<Vec<u8>>)
        ensures
            final(self)@ == after_take(old(self)@),
            old(self)@.server_writes.len() == 0 ==> r is None,
            old(self)@.server_writes.len() > 0 ==> (r matches Some(v) && v@ == old(
                self,
            )@.server_writes[0]),
    {
        match self.server_writes.pop_front() {
            Some(bytes) => {
                self.server_write_in_flight_bytes = self.server_write_in_flight_bytes.saturating_add(
                    bytes.len(),
                );
                assert(self@.server_writes =~= old(self)@.server_writes.drop_first());
                Some(bytes)
            },
            None => None,
        }
    }

    /// The transport reports `byte_len` bytes as written.
    pub fn complete_server_write(&mut self, byte_len: usize)
        ensures
            final(self)@ == after_complete(old(self)@, byte_len as nat),
    {
        self.server_write_in_flight_bytes = self.server_write_in_flight_bytes.saturating_sub(
            byte_len,
        );
        self.server_write_bytes = self.server_write_bytes.saturating_sub(byte_len);
    }

    /// The transport gives back a taken write, which is sent before any other.
    pub fn restore_server_write(&mut self, bytes: Vec<u8>)
        ensures
            final(self)@ == after_restore(old(self)@, bytes@),
    {
        self.server_write_in_flight_bytes = self.server_write_in_flight_bytes.saturating_sub(
            bytes.len(),
        );
        let ghost b = bytes@;
        self.server_writes.push_front(bytes);
        assert(self@.server_writes =~= seq![b] + old(self)@.server_writes);
    }

    /// Whether every queued write was completed by the transport.
    pub fn server_writes_drained(&self) -> (r: bool)
        ensures
            r == (self@.server_write_bytes == 0 && self@.in_flight_bytes == 0),
    {
        self.server_write_bytes == 0 && self.server_write_in_flight_bytes == 0
    }

    /// Takes all buffered remote output.
    pub fn drain_remote_output(&mut self) -> (r: Vec<u8>)
        ensures
            r@ == old(self)@.remote_output,
            final(self)@ == (TransferState { remote_output: Seq::empty(), ..old(self)@ }),
    {
        let mut out: Vec<u8> = Vec::new();
        while self.remote_output.len() > 0
            invariant
                out@ + self.remote_output@ == old(self).remote_output@,
                self.server_writes == old(self).server_writes,
                self.server_write_bytes == old(self).server_write_bytes,
                self.server_write_in_flight_bytes == old(self).server_write_in_flight_bytes,
                self.cancellation_bytes == old(self).cancellation_bytes,
                self.input_overflow == old(self).input_overflow,
                self.stopped == old(self).stopped,
            decreases self.remote_output@.len(),
        {
            let ghost before = self.remote_output@;
            match self.remote_output.pop_front() {
                Some(b) => {
                    out.push(b);
                    assert(out@ + self.remote_output@ =~= old(self).remote_output@);
                },
                None => {},
            }
        }
        assert(out@ =~= old(self).remote_output@);
        assert(self@.remote_output =~= Seq::<u8>::empty());
        out
    }

    /// Cancels the transfer: the protocol sees `Cancelled`, and the abort
    /// sequence replaces unsent protocol output.
    pub fn stop(&mut self)
        ensures
            final(self)@ == cancelled(old(self)@),
    {
        self.cancel_locked();
    }

    /// Whether the transfer was cancelled (by `stop` or by an input overflow).
    pub fn is_stopped(&self) -> (r: bool)
        ensures
            r == self@.stopped,
    {
        self.stopped
    }

    /// Whether a protocol write of `byte_len` bytes fits the outbound queue now.
    pub fn accepts_write(&self, byte_len: usize) -> (r: bool)
        ensures
            r == accepts_write(self@, byte_len as nat),
    {
        self.server_write_bytes.saturating_add(byte_len) <= MODEM_SERVER_WRITE_BUFFER_BYTES || (
        self.server_write_bytes == 0 && self.server_write_in_flight_bytes == 0)
    }
}

/// Cancelling an already cancelled transfer changes nothing.
pub proof fn lemma_cancel_idempotent(s: TransferState)
    ensures
        cancelled(cancelled(s)) == cancelled(s),
{
}

/// Giving back the write just taken restores the queue and the in-flight count.
pub proof fn lemma_take_then_restore(s: TransferState)
    requires
        s.server_writes.len() > 0,
        s.in_flight_bytes + s.server_writes[0].len() <= usize::MAX,
    ensures
        after_restore(after_take(s), s.server_writes[0]) == s,
{
    assert(seq![s.server_writes[0]] + s.server_writes.drop_first() =~= s.server_writes);
}

/// Writes reach the transport in the order they were made.
pub proof fn lemma_writes_are_fifo(s: TransferState, a: Seq<u8>, b: Seq<u8>)
    requires
        s.server_writes.len() == 0,
    ensures
        after_take(after_write(after_write(s, a), b)).server_writes == seq![b],
        after_write(after_write(s, a), b).server_writes[0] == a,
        after_take(after_write(after_write(s, a), b)).server_writes[0] == b,
{
    assert(after_write(after_write(s, a), b).server_writes =~= seq![a, b]);
    assert(seq![a, b].drop_first() =~= seq![b]);
}

/// On a drained transfer, a write that the transport takes and completes
/// leaves the transfer drained again.
pub proof fn lemma_write_take_complete_drains(s: TransferState, bytes: Seq<u8>)
    requires
        s.server_write_bytes == 0,
        s.in_flight_bytes == 0,
        s.server_writes.len() == 0,
        bytes.len() <= usize::MAX,
    ensures
        after_take(after_write(s, bytes)).server_writes.len() == 0,
        after_complete(after_take(after_write(s, bytes)), bytes.len()).server_write_bytes == 0,
        after_complete(after_take(after_write(s, bytes)), bytes.len()).in_flight_bytes == 0,
{
    assert(after_write(s, bytes).server_writes =~= seq![bytes]);
}

impl ModemIo for ModemTransfer {
    closed spec fn pending(&self) -> nat {
        self.remote_output@.len()
    }

    closed spec fn sent(&self) -> Seq<u8> {
        self.sent_log@
    }

    closed spec fn received(&self) -> Seq<u8> {
        self.received_log@
    }

    closed spec fn incoming(&self) -> Seq<u8> {
        self.remote_output@
    }

    closed spec fn can_read(&self) -> bool {
        !self.input_overflow && !self.stopped && self.remote_output@.len() > 0
    }

    closed spec fn read_failure(&self) -> ModemTransferError {
        if self.input_overflow {
            ModemTransferError::InputBufferOverflow(MODEM_REMOTE_OUTPUT_BUFFER_BYTES)
        } else if self.stopped {
            ModemTransferError::Cancelled
        } else {
            ModemTransferError::Timeout
        }
    }

    /// A non-empty write is refused with `Cancelled` once stopped, and with
    /// `Timeout` when the queue cannot take it now.
    closed spec fn write_refusal(&self, n: nat) -> Option<ModemTransferError> {
        if n == 0 {
            None
        } else if self@.stopped {
            Some(ModemTransferError::Cancelled)
        } else if !accepts_write(self@, n) {
            Some(ModemTransferError::Timeout)
        } else {
            None
        }
    }

    /// Queued writes can be refused, so the channel is not reliable.
    closed spec fn reliable(&self) -> bool {
        false
    }

    /// The next remote byte. A cancelled transfer reports `Cancelled` (or
    /// `InputBufferOverflow` when the input overflowed); with no buffered
    /// byte the wait is over at once and reports `Timeout`.
    fn read_byte(&mut self, timeout_ms: u64) -> (r: Result<u8, ModemTransferError>)
        ensures
            old(self)@.input_overflow ==> (r matches Err(
                ModemTransferError::InputBufferOverflow(n),
            ) && n == MODEM_REMOTE_OUTPUT_BUFFER_BYTES) && final(self)@ == old(self)@,
            !old(self)@.input_overflow && old(self)@.stopped ==> (r matches Err(
                ModemTransferError::Cancelled,
            )) && final(self)@ == old(self)@,
            !old(self)@.input_overflow && !old(self)@.stopped && old(self)@.remote_output.len()
                > 0 ==> (r matches Ok(b) && b == old(self)@.remote_output[0]) && final(self)@ == (
            TransferState { remote_output: old(self)@.remote_output.drop_first(), ..old(self)@ }),
            !old(self)@.input_overflow && !old(self)@.stopped && old(self)@.remote_output.len()
                == 0 ==> (r matches Err(ModemTransferError::Timeout)) && final(self)@ == old(
                self,
            )@,
    {
        if self.input_overflow {
            return Err(ModemTransferError::InputBufferOverflow(MODEM_REMOTE_OUTPUT_BUFFER_BYTES));
        }
        if self.stopped {
            return Err(ModemTransferError::Cancelled);
        }
        match self.remote_output.pop_front() {
            Some(byte) => {
                proof {
                    self.received_log@ = self.received_log@.push(byte);
                }
                assert(self@.remote_output =~= old(self)@.remote_output.drop_first());
                Ok(byte)
            },
            None => Err(ModemTransferError::Timeout),
        }
    }

    /// Queues protocol output for the transport. A write the queue cannot
    /// take now (see `accepts_write`) reports `Timeout` instead of waiting.
    fn write_all(&mut self, bytes: &[u8]) -> (r: Result<(), ModemTransferError>)
        ensures
            bytes@.len() == 0 ==> r is Ok && final(self)@ == old(self)@,
            bytes@.len() > 0 && old(self)@.stopped ==> (r matches Err(
                ModemTransferError::Cancelled,
            )) && final(self)@ == old(self)@,
            bytes@.len() > 0 && !old(self)@.stopped && !accepts_write(old(self)@, bytes@.len())
                ==> (r matches Err(ModemTransferError::Timeout)) && final(self)@ == old(self)@,
            bytes@.len() > 0 && !old(self)@.stopped && accepts_write(old(self)@, bytes@.len())
                ==> r is Ok && final(self)@ == after_write(old(self)@, bytes@),
    {
        if bytes.len() == 0 {
            assert(self.sent_log@ + bytes@ =~= self.sent_log@);
            return Ok(());
        }
        if self.stopped {
            return Err(ModemTransferError::Cancelled);
        }
        if !self.accepts_write(bytes.len()) {
            return Err(ModemTransferError::Timeout);
        }
        self.server_write_bytes = self.server_write_bytes.saturating_add(bytes.len());
        let mut copy: Vec<u8> = Vec::new();
        copy.extend_from_slice(bytes);
        assert(copy@ =~= bytes@);
        self.server_writes.push_back(copy);
        assert(self@.server_writes =~= old(self)@.server_writes.push(bytes@));
        proof {
            self.sent_log@ = self.sent_log@ + bytes@;
        }
        Ok(())
    }
}

} // verus!
