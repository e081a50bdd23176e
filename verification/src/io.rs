//! The byte channels the modem protocols run over, and in-memory versions of them.
use vstd::prelude::*;

use crate::error::ModemTransferError;

verus! {

/// A bidirectional byte channel to the modem peer.
///
/// The model functions have a default of no particular value, for channels
/// implemented outside the verified library that keep no model.
///
/// `sent` and `received` are the logs of everything written and read so far.
/// `incoming` is what the peer has delivered but was not read yet, and
/// `pending` bounds its length: every successful read lowers it, which bounds
/// every protocol loop. `can_read` says that the next read is sure to
/// succeed; a read fails only when it does not hold, and a failed read
/// changes neither. `write_refusal` gives, for a write of `n` bytes, the
/// error with which the channel refuses it now, if it does; a write fails
/// exactly when it is refused, and a refused write changes none of these.
/// A `reliable` channel refuses no write and fails a read only when nothing
/// is incoming, always with the same error; it stays reliable.
pub trait ModemIo {
    closed spec fn pending(&self) -> nat {
        arbitrary()
    }

    closed spec fn sent(&self) -> Seq<u8> {
        arbitrary()
    }

    closed spec fn received(&self) -> Seq<u8> {
        arbitrary()
    }

    closed spec fn incoming(&self) -> Seq<u8> {
        arbitrary()
    }

    closed spec fn can_read(&self) -> bool {
        arbitrary()
    }

    /// The error a read reports when it cannot read.
    closed spec fn read_failure(&self) -> ModemTransferError {
        arbitrary()
    }

    closed spec fn write_refusal(&self, n: nat) -> Option<ModemTransferError> {
        arbitrary()
    }

    closed spec fn reliable(&self) -> bool {
        arbitrary()
    }

    fn read_byte(&mut self, timeout_ms: u64) -> (r: Result<u8, ModemTransferError>)
        ensures
            final(self).sent() == old(self).sent(),
            r matches Ok(b) ==> final(self).received() == old(self).received().push(b)
                && final(self).pending() < old(self).pending() && old(self).incoming().len() > 0
                && b == old(self).incoming()[0] && final(self).incoming() == old(
                self,
            ).incoming().drop_first(),
            r is Err ==> final(self).received() == old(self).received() && final(self).pending()
                <= old(self).pending() && final(self).incoming() == old(self).incoming()
                && final(self).can_read() == old(self).can_read() && final(self).read_failure()
                == old(self).read_failure(),
            r matches Err(e) ==> e == old(self).read_failure(),
            old(self).can_read() ==> r is Ok,
            r is Err ==> forall|n: nat| #[trigger] final(self).write_refusal(n) == old(self).write_refusal(n),
            old(self).reliable() ==> final(self).reliable() && final(self).read_failure() == old(
                self,
            ).read_failure() && (r is Ok <==> old(self).incoming().len() > 0),
    ;

    fn write_all(&mut self, bytes: &[u8]) -> (r: Result<(), ModemTransferError>)
        ensures
            final(self).received() == old(self).received(),
            final(self).pending() <= old(self).pending(),
            final(self).incoming() == old(self).incoming(),
            final(self).can_read() == old(self).can_read(),
            final(self).read_failure() == old(self).read_failure(),
            r is Ok ==> final(self).sent() == old(self).sent() + bytes@,
            r is Err ==> final(self).sent() == old(self).sent(),
            r is Err <==> old(self).write_refusal(bytes@.len()) is Some,
            r matches Err(e) ==> old(self).write_refusal(bytes@.len()) == Some(e),
            r is Err ==> forall|n: nat| #[trigger] final(self).write_refusal(n) == old(self).write_refusal(n),
            old(self).reliable() ==> r is Ok && final(self).reliable(),
    ;
}

/// A source of file bytes with random access (model functions as for
/// `ModemIo`).
///
/// `consumed` is the log of bytes handed out by `read_chunk` so far and
/// `remaining` is how many more bytes the source can hand out from where it
/// stands; a read hands out nothing only when none remain. `unread` is what
/// it will hand out, in order.
/// `failure` is the error the source reports now, if it cannot work: its
/// operations fail exactly then, and a failure stays.
pub trait ModemRead {
    closed spec fn consumed(&self) -> Seq<u8> {
        arbitrary()
    }

    closed spec fn remaining(&self) -> nat {
        arbitrary()
    }

    closed spec fn failure(&self) -> Option<ModemTransferError> {
        arbitrary()
    }

    /// The bytes the source will hand out from where it stands.
    closed spec fn unread(&self) -> Seq<u8> {
        arbitrary()
    }

    /// Reads at most `max_len` bytes; an empty result means end of data.
    fn read_chunk(&mut self, max_len: usize) -> (r: Result<Vec<u8>, ModemTransferError>)
        ensures
            r matches Ok(v) ==> v@.len() <= max_len && final(self).consumed() == old(
                self,
            ).consumed() + v@ && final(self).remaining() + v@.len() == old(self).remaining(),
            r matches Ok(v) ==> (v@.len() == 0 && max_len > 0 ==> old(self).remaining() == 0),
            r matches Ok(v) ==> v@.len() <= old(self).unread().len() && v@ == old(
                self,
            ).unread().take(v@.len() as int),
            r matches Ok(v) ==> final(self).unread() == old(self).unread().skip(v@.len() as int),
            r matches Ok(v) ==> (max_len > 0 && old(self).unread().len() > 0 ==> v@.len() > 0),
            r is Err ==> final(self).unread() == old(self).unread(),
            r is Err ==> final(self).consumed() == old(self).consumed() && final(self).remaining()
                <= old(self).remaining(),
            r is Err <==> old(self).failure() is Some,
            r matches Err(e) ==> old(self).failure() == Some(e) && final(self).failure() == Some(e),
            r is Ok ==> final(self).failure() is None,
    ;

    /// Moves the read position to `position` bytes from the start.
    fn seek_to(&mut self, position: u64) -> (r: Result<(), ModemTransferError>)
        ensures
            final(self).consumed() == old(self).consumed(),
            r is Err <==> old(self).failure() is Some,
            r matches Err(e) ==> old(self).failure() == Some(e) && final(self).failure() == Some(e),
            r is Ok ==> final(self).failure() is None,
    ;
}

/// A destination for received bytes, split into the files a batch protocol
/// (YMODEM, ZMODEM) announces (model functions as for `ModemIo`).
///
/// `written` is everything written so far; `file_starts` the offsets in it
/// at which each announced file begins, and `announced` the name and size
/// each was opened with. `failure` is the error the
/// destination reports now, if it cannot work: its operations fail exactly
/// then, and a failure stays.
pub trait ModemWrite {
    closed spec fn written(&self) -> Seq<u8> {
        arbitrary()
    }

    closed spec fn file_starts(&self) -> Seq<nat> {
        arbitrary()
    }

    closed spec fn failure(&self) -> Option<ModemTransferError> {
        arbitrary()
    }

    closed spec fn announced(&self) -> Seq<(Seq<char>, Option<u64>)> {
        arbitrary()
    }

    fn write_all(&mut self, bytes: &[u8]) -> (r: Result<(), ModemTransferError>)
        ensures
            final(self).file_starts() == old(self).file_starts(),
            final(self).announced() == old(self).announced(),
            r is Ok ==> final(self).written() == old(self).written() + bytes@,
            r is Err ==> final(self).written() == old(self).written(),
            r is Err <==> old(self).failure() is Some,
            r matches Err(e) ==> old(self).failure() == Some(e) && final(self).failure() == Some(e),
            r is Ok ==> final(self).failure() is None,
    ;

    fn flush(&mut self) -> (r: Result<(), ModemTransferError>)
        ensures
            final(self).written() == old(self).written(),
            final(self).file_starts() == old(self).file_starts(),
            final(self).announced() == old(self).announced(),
            r is Err <==> old(self).failure() is Some,
            r matches Err(e) ==> old(self).failure() == Some(e) && final(self).failure() == Some(e),
            r is Ok ==> final(self).failure() is None,
    ;

    /// Starts a new file; the bytes written next belong to it.
    fn open_file(&mut self, file_name: &String, file_size: Option<u64>) -> (r: Result<
        (),
        ModemTransferError,
    >)
        ensures
            final(self).written() == old(self).written(),
            r is Ok ==> final(self).file_starts() == old(self).file_starts().push(
                old(self).written().len(),
            ),
            r is Err ==> final(self).file_starts() == old(self).file_starts(),
            r is Ok ==> final(self).announced() == old(self).announced().push(
                (file_name@, file_size),
            ),
            r is Err ==> final(self).announced() == old(self).announced(),
            r is Err <==> old(self).failure() is Some,
            r matches Err(e) ==> old(self).failure() == Some(e) && final(self).failure() == Some(e),
            r is Ok ==> final(self).failure() is None,
    ;
}

/// The bytes of file `k` of a sink: from its start to the next file's start
/// (or to the end of what was written).
pub open spec fn file_content(written: Seq<u8>, starts: Seq<nat>, k: int) -> Seq<u8> {
    let end = if k + 1 < starts.len() {
        starts[k + 1] as int
    } else {
        written.len() as int
    };
    written.subrange(starts[k] as int, end)
}

/// An in-memory channel that cannot read has nothing left to read, and its
/// reads fail with `Timeout`.
pub proof fn lemma_memory_io_exhausted(io: MemoryModemIo)
    ensures
        !io.can_read() ==> io.incoming().len() == 0,
        io.read_failure() == ModemTransferError::Timeout,
        io.reliable(),
{
}

/// An in-memory modem channel: reads come from a fixed input, writes are collected.
#[derive(Debug, Default)]
pub struct MemoryModemIo {
    input: Vec<u8>,
    position: usize,
    output: Vec<u8>,
}

impl MemoryModemIo {
    /// The bytes not read yet.
    pub closed spec fn unread(&self) -> Seq<u8> {
        self.input@.subrange(self.position as int, self.input@.len() as int)
    }

    /// The collected output.
    pub closed spec fn output(&self) -> Seq<u8> {
        self.output@
    }

    pub closed spec fn wf(&self) -> bool {
        self.position <= self.input@.len()
    }

    pub fn with_input(input: Vec<u8>) -> (r: Self)
        ensures
            r.wf(),
            r.unread() == input@,
            r.output() == Seq::<u8>::empty(),
            r.received() == Seq::<u8>::empty(),
            r.incoming() == input@,
            r.can_read() == (input@.len() > 0),
    {
        let r = MemoryModemIo { input, position: 0, output: Vec::new() };
        assert(r.input@.subrange(0, r.input@.len() as int) =~= r.input@);
        r
    }

    /// Returns the collected output and starts a new collection.
    pub fn take_output(&mut self) -> (r: Vec<u8>)
        ensures
            r@ == old(self).output(),
            final(self).output() == Seq::<u8>::empty(),
            final(self).unread() == old(self).unread(),
            final(self).wf() == old(self).wf(),
    {
        let mut out = Vec::new();
        std::mem::swap(&mut out, &mut self.output);
        out
    }
}

impl ModemIo for MemoryModemIo {
    closed spec fn pending(&self) -> nat {
        (self.input@.len() - self.position) as nat
    }

    closed spec fn sent(&self) -> Seq<u8> {
        self.output@
    }

    closed spec fn received(&self) -> Seq<u8> {
        self.input@.subrange(0, self.position as int)
    }

    closed spec fn incoming(&self) -> Seq<u8> {
        if self.position <= self.input@.len() {
            self.input@.subrange(self.position as int, self.input@.len() as int)
        } else {
            Seq::empty()
        }
    }

    closed spec fn can_read(&self) -> bool {
        self.position < self.input@.len()
    }

    closed spec fn read_failure(&self) -> ModemTransferError {
        ModemTransferError::Timeout
    }

    /// Writes are never refused.
    closed spec fn write_refusal(&self, n: nat) -> Option<ModemTransferError> {
        None
    }

    /// Reads fail only at the end of the input, with `Timeout`.
    closed spec fn reliable(&self) -> bool {
        true
    }

    /// Returns the next input byte, or `Timeout` once the input is exhausted.
    fn read_byte(&mut self, timeout_ms: u64) -> (r: Result<u8, ModemTransferError>) {
        if self.position < self.input.len() {
            let byte = self.input[self.position];
            proof {
                assert(self.input@.subrange(0, self.position + 1) =~= self.input@.subrange(
                    0,
                    self.position as int,
                ).push(byte));
            }
            self.position = self.position + 1;
            assert(self.input@.subrange(self.position as int, self.input@.len() as int) =~= old(
                self,
            ).input@.subrange(old(self).position as int, old(self).input@.len() as int).drop_first());
            Ok(byte)
        } else {
            Err(ModemTransferError::Timeout)
        }
    }

    /// Appends to the collected output; never fails.
    fn write_all(&mut self, bytes: &[u8]) -> (r: Result<(), ModemTransferError>)
        ensures
            r is Ok,
            final(self).output() == old(self).output() + bytes@,
            final(self).unread() == old(self).unread(),
    {
        self.output.extend_from_slice(bytes);
        Ok(())
    }
}

/// A buffer reader never fails.
pub proof fn lemma_byte_reader_never_fails(reader: ByteReader)
    ensures
        reader.failure() is None,
{
}

/// A byte buffer read from the start, with seeking.
pub struct ByteReader {
    bytes: Vec<u8>,
    position: usize,
    log: Ghost<Seq<u8>>,
}

impl ByteReader {
    pub closed spec fn contents(&self) -> Seq<u8> {
        self.bytes@
    }

    pub closed spec fn position(&self) -> nat {
        self.position as nat
    }

    pub fn new(bytes: Vec<u8>) -> (r: Self)
        ensures
            r.contents() == bytes@,
            r.position() == 0,
            r.consumed() == Seq::<u8>::empty(),
            r.remaining() == bytes@.len(),
            r.unread() == bytes@,
    {
        let r = ByteReader { bytes, position: 0, log: Ghost(Seq::empty()) };
        assert(r.unread() =~= r.bytes@);
        r
    }
}

impl ModemRead for ByteReader {
    closed spec fn consumed(&self) -> Seq<u8> {
        self.log@
    }

    closed spec fn remaining(&self) -> nat {
        if self.position <= self.bytes@.len() {
            (self.bytes@.len() - self.position) as nat
        } else {
            0
        }
    }

    /// A buffer never fails.
    closed spec fn failure(&self) -> Option<ModemTransferError> {
        None
    }

    closed spec fn unread(&self) -> Seq<u8> {
        if self.position <= self.bytes@.len() {
            self.bytes@.subrange(self.position as int, self.bytes@.len() as int)
        } else {
            Seq::empty()
        }
    }

    /// Hands out the next bytes of the buffer: up to `max_len` from the read
    /// position, which moves past them (none when the position is past the
    /// end).
    fn read_chunk(&mut self, max_len: usize) -> (r: Result<Vec<u8>, ModemTransferError>)
        ensures
            final(self).contents() == old(self).contents(),
            ({
                let p = old(self).position();
                let len = old(self).contents().len();
                if p <= len {
                    let n = if max_len < len - p {
                        max_len as nat
                    } else {
                        (len - p) as nat
                    };
                    r matches Ok(v) && v@ == old(self).contents().subrange(p as int, (p + n) as int)
                        && final(self).position() == p + n
                } else {
                    r matches Ok(v) && v@.len() == 0 && final(self).position() == p
                }
            }),
    {
        let mut out: Vec<u8> = Vec::new();
        let ghost start = self.position;
        while out.len() < max_len && self.position < self.bytes.len()
            invariant
                out@.len() <= max_len,
                start <= self.position,
                self.position == start + out@.len(),
                self.position <= self.bytes@.len() || out@.len() == 0,
                forall|k: int| 0 <= k < out@.len() ==> out@[k] == self.bytes@[start + k],
                self.log == old(self).log,
                self.bytes == old(self).bytes,
                start <= self.bytes@.len() ==> self.position <= self.bytes@.len(),
                start > self.bytes@.len() ==> out@.len() == 0,
            decreases self.bytes@.len() - self.position,
        {
            out.push(self.bytes[self.position]);
            self.position = self.position + 1;
        }
        proof {
            self.log@ = self.log@ + out@;
        }
        assert(start <= self.bytes@.len() ==> out@ =~= self.bytes@.subrange(start as int, self.position as int));
        assert(self.unread() =~= old(self).unread().skip(out@.len() as int));
        assert(out@ =~= old(self).unread().take(out@.len() as int));
        Ok(out)
    }

    /// Moves the read position to `position`, or to the end when that is
    /// past it; never fails.
    fn seek_to(&mut self, position: u64) -> (r: Result<(), ModemTransferError>)
        ensures
            r is Ok,
            final(self).contents() == old(self).contents(),
            final(self).position() == if position < old(self).contents().len() {
                position as nat
            } else {
                old(self).contents().len()
            },
    {
        if position as u128 >= self.bytes.len() as u128 {
            self.position = self.bytes.len();
        } else {
            self.position = position as usize;
        }
        Ok(())
    }
}

/// A byte buffer that collects everything written to it, remembering where
/// each announced file starts.
#[derive(Debug)]
pub struct ByteWriter {
    bytes: Vec<u8>,
    files: Vec<(usize, String, Option<u64>)>,
}

impl ByteWriter {
    /// Files start within the buffer, in order.
    #[verifier::type_invariant]
    spec fn starts_in_order(self) -> bool {
        &&& forall|k: int| 0 <= k < self.files@.len() ==> #[trigger] self.files@[k].0 <= self.bytes@.len()
        &&& forall|j: int, k: int|
            0 <= j <= k < self.files@.len() ==> #[trigger] self.files@[j].0 <= #[trigger] self.files@[k].0
    }

    pub fn new() -> (r: Self)
        ensures
            r.written() == Seq::<u8>::empty(),
            r.file_starts() == Seq::<nat>::empty(),
            r.announced() == Seq::<(Seq<char>, Option<u64>)>::empty(),
    {
        let r = ByteWriter { bytes: Vec::new(), files: Vec::new() };
        assert(r.file_starts() =~= Seq::<nat>::empty());
        assert(r.announced() =~= Seq::<(Seq<char>, Option<u64>)>::empty());
        r
    }

    /// Everything written.
    pub fn into_bytes(self) -> (r: Vec<u8>)
        ensures
            r@ == self.written(),
    {
        self.bytes
    }

    /// The number of announced files.
    pub fn file_count(&self) -> (r: usize)
        ensures
            r == self.file_starts().len(),
    {
        self.files.len()
    }

    /// The name and size announced for file `k`.
    pub fn file_announcement(&self, k: usize) -> (r: Option<(String, Option<u64>)>)
        ensures
            k < self.announced().len() ==> (r matches Some((name, size)) && (name@, size)
                == self.announced()[k as int]),
            k >= self.announced().len() ==> r is None,
            self.announced().len() == self.file_starts().len(),
    {
        if k < self.files.len() {
            Some((self.files[k].1.clone(), self.files[k].2))
        } else {
            None
        }
    }

    /// The bytes of file `k`.
    pub fn file_bytes(&self, k: usize) -> (r: Option<Vec<u8>>)
        ensures
            k < self.file_starts().len() ==> (r matches Some(v) && v@ == file_content(
                self.written(),
                self.file_starts(),
                k as int,
            )),
            k >= self.file_starts().len() ==> r is None,
    {
        proof {
            use_type_invariant(self);
        }
        if k >= self.files.len() {
            return None;
        }
        let start = self.files[k].0;
        let end = if k < self.files.len() - 1 {
            self.files[k + 1].0
        } else {
            self.bytes.len()
        };
        Some(crate::bytes::copy_range(self.bytes.as_slice(), start, end))
    }
}

impl ModemWrite for ByteWriter {
    closed spec fn written(&self) -> Seq<u8> {
        self.bytes@
    }

    closed spec fn file_starts(&self) -> Seq<nat> {
        Seq::new(self.files@.len(), |k: int| self.files@[k].0 as nat)
    }

    /// A buffer never fails.
    closed spec fn failure(&self) -> Option<ModemTransferError> {
        None
    }

    closed spec fn announced(&self) -> Seq<(Seq<char>, Option<u64>)> {
        Seq::new(self.files@.len(), |k: int| (self.files@[k].1@, self.files@[k].2))
    }

    /// Appends to the buffer; never fails.
    fn write_all(&mut self, bytes: &[u8]) -> (r: Result<(), ModemTransferError>)
        ensures
            r is Ok,
            final(self).announced() == old(self).announced(),
    {
        proof {
            use_type_invariant(&*self);
        }
        let mut taken = ByteWriter { bytes: Vec::new(), files: Vec::new() };
        core::mem::swap(&mut taken, self);
        let ByteWriter { bytes: mut buffer, files } = taken;
        buffer.extend_from_slice(bytes);
        *self = ByteWriter { bytes: buffer, files };
        Ok(())
    }

    /// Nothing to flush; never fails.
    fn flush(&mut self) -> (r: Result<(), ModemTransferError>)
        ensures
            r is Ok,
            final(self).announced() == old(self).announced(),
    {
        Ok(())
    }

    /// Records that a file starts at the current end; never fails.
    fn open_file(&mut self, file_name: &String, file_size: Option<u64>) -> (r: Result<
        (),
        ModemTransferError,
    >)
        ensures
            r is Ok,
            final(self).announced() == old(self).announced().push((file_name@, file_size)),
    {
        proof {
            use_type_invariant(&*self);
        }
        let mut taken = ByteWriter { bytes: Vec::new(), files: Vec::new() };
        core::mem::swap(&mut taken, self);
        let ByteWriter { bytes, mut files } = taken;
        files.push((bytes.len(), file_name.clone(), file_size));
        *self = ByteWriter { bytes, files };
        assert(self.file_starts() =~= old(self).file_starts().push(old(self).written().len()));
        assert(self.announced() =~= old(self).announced().push((file_name@, file_size)));
        Ok(())
    }
}

/// The bytes read from a channel between two of its states.
pub open spec fn bytes_read<I: ModemIo>(before: I, after: I) -> Seq<u8> {
    after.received().subrange(before.received().len() as int, after.received().len() as int)
}

/// A write of `n` bytes went as the channel allows: it failed exactly when
/// the channel refused it, with the refusal's error, which still stands.
pub open spec fn write_outcome<I: ModemIo>(
    before: I,
    after: I,
    n: nat,
    r: Result<(), ModemTransferError>,
) -> bool {
    &&& (r is Err <==> before.write_refusal(n) is Some)
    &&& (r matches Err(e) ==> before.write_refusal(n) == Some(e) && after.write_refusal(n) == Some(e))
}

/// Where an error `e` of a run over the channel from `before` to `after`
/// came from: the channel refused a write with it, or a read failed with
/// it, or the peer had sent something that the protocol refused.
pub open spec fn channel_error<I: ModemIo>(before: I, after: I, e: ModemTransferError) -> bool {
    ||| (exists|n: nat| #[trigger] after.write_refusal(n) == Some(e))
    ||| (!after.can_read() && e == after.read_failure())
    ||| before.received().len() < after.received().len()
}

/// An error of a later part of a run is an error of the whole run.
pub proof fn lemma_channel_error_earlier<I: ModemIo>(before: I, mid: I, after: I, e: ModemTransferError)
    requires
        before.received().len() <= mid.received().len(),
        channel_error(mid, after, e),
    ensures
        channel_error(before, after, e),
{
}

/// One more byte read keeps a run of reads in order.
pub proof fn lemma_read_step<I: ModemIo>(a: I, b: I, c: I, byte: u8)
    requires
        consumed_in_order(a, b),
        c.sent() == b.sent(),
        c.pending() <= b.pending(),
        c.received() == b.received().push(byte),
        b.incoming().len() > 0,
        byte == b.incoming()[0],
        c.incoming() == b.incoming().drop_first(),
    ensures
        consumed_in_order(a, c),
        bytes_read(a, c) == bytes_read(a, b).push(byte),
{
    assert(bytes_read(a, c) =~= bytes_read(a, b).push(byte));
    assert(c.received().subrange(0, a.received().len() as int) =~= b.received().subrange(
        0,
        a.received().len() as int,
    ));
    assert(a.incoming() =~= bytes_read(a, c) + c.incoming());
}

/// A failed read keeps a run of reads in order.
pub proof fn lemma_read_none<I: ModemIo>(a: I, b: I, c: I)
    requires
        consumed_in_order(a, b),
        c.sent() == b.sent(),
        c.pending() <= b.pending(),
        c.received() == b.received(),
        c.incoming() == b.incoming(),
    ensures
        consumed_in_order(a, c),
        bytes_read(a, c) == bytes_read(a, b),
{
}

/// Nothing read yet.
pub proof fn lemma_read_start<I: ModemIo>(a: I)
    ensures
        consumed_in_order(a, a),
        bytes_read(a, a) == Seq::<u8>::empty(),
{
    assert(bytes_read(a, a) =~= Seq::<u8>::empty());
    assert(a.received().subrange(0, a.received().len() as int) =~= a.received());
    assert(a.incoming() =~= bytes_read(a, a) + a.incoming());
}

/// A sequence is a prefix of itself with more at its end.
pub proof fn lemma_prefix_of_append(a: Seq<u8>, b: Seq<u8>)
    ensures
        a.is_prefix_of(a + b),
{
    assert((a + b).subrange(0, a.len() as int) =~= a);
}

/// A prefix of a prefix is a prefix.
pub proof fn lemma_prefix_trans(a: Seq<u8>, b: Seq<u8>, c: Seq<u8>)
    requires
        a.is_prefix_of(b),
        b.is_prefix_of(c),
    ensures
        a.is_prefix_of(c),
{
    assert(c.subrange(0, a.len() as int) =~= b.subrange(0, a.len() as int));
}

/// A channel read: what was read comes off the front of what was incoming.
pub open spec fn consumed_in_order<I: ModemIo>(before: I, after: I) -> bool {
    &&& after.sent() == before.sent()
    &&& after.pending() <= before.pending()
    &&& before.received().len() <= after.received().len()
    &&& after.received().subrange(0, before.received().len() as int) == before.received()
    &&& before.incoming() == bytes_read(before, after) + after.incoming()
}

} // verus!
