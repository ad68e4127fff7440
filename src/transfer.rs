use vstd::prelude::*;

verus! {

/// Why a positional transfer could not go on.
///
/// A call that reports no progress before the span is complete ends the
/// transfer: for a read it is the end of the file, for a write a device that
/// takes no more. It is surfaced, never retried, so a transfer cannot spin.
#[derive(Clone, Copy, Debug, PartialEq, Eq, Structural)]
pub enum TransferError {
    /// The span's end lies beyond the largest file offset.
    OffsetOverflow,
    /// A call moved no bytes before the span was complete.
    NoProgress,
    /// A call reported more bytes than were left of the span.
    Overrun,
}

/// Whether the span `[offset, offset + len)` fits in file offsets.
pub open spec fn span_fits(offset: nat, len: nat) -> bool {
    offset + len <= u64::MAX
}

/// A file's bytes after `data` was written at `at` inside it.
pub open spec fn overwrite(file: Seq<u8>, at: nat, data: Seq<u8>) -> Seq<u8>
    recommends
        at + data.len() <= file.len(),
{
    file.subrange(0, at as int) + data + file.subrange((at + data.len()) as int, file.len() as int)
}

/// In the file model, the span just written reads back as the data written,
/// and the file keeps its length.
pub proof fn written_span_reads_back(file: Seq<u8>, at: nat, data: Seq<u8>)
    requires
        at + data.len() <= file.len(),
    ensures
        overwrite(file, at, data).len() == file.len(),
        overwrite(file, at, data).subrange(at as int, (at + data.len()) as int) == data,
{
    assert(overwrite(file, at, data).subrange(at as int, (at + data.len()) as int) =~= data);
}

/// One step of a read: the bytes received so far and a chunk that one call
/// delivered give the bytes received after it.
pub open spec fn read_step(total: nat, received: Seq<u8>, chunk: Seq<u8>) -> Result<
    Seq<u8>,
    TransferError,
> {
    if chunk.len() == 0 {
        Err(TransferError::NoProgress)
    } else if received.len() + chunk.len() > total {
        Err(TransferError::Overrun)
    } else {
        Ok(received + chunk)
    }
}

/// The steps of a read over the chunks that successive calls delivered.
pub open spec fn read_steps(total: nat, received: Seq<u8>, chunks: Seq<Seq<u8>>) -> Result<
    Seq<u8>,
    TransferError,
>
    decreases chunks.len(),
{
    if chunks.len() == 0 {
        Ok(received)
    } else {
        match read_step(total, received, chunks[0]) {
            Ok(next) => read_steps(total, next, chunks.drop_first()),
            Err(e) => Err(e),
        }
    }
}

/// The sum of the counts that the calls of a write reported.
pub open spec fn reported(counts: Seq<usize>) -> nat
    decreases counts.len(),
{
    if counts.len() == 0 {
        0
    } else {
        reported(counts.drop_last()) + counts.last() as nat
    }
}

/// One step of a write: the count written so far and the count that one call
/// reported give the count written after it.
pub open spec fn write_step(total: nat, written: nat, n: nat) -> Result<nat, TransferError> {
    if n == 0 {
        Err(TransferError::NoProgress)
    } else if written + n > total {
        Err(TransferError::Overrun)
    } else {
        Ok(written + n)
    }
}

/// The steps of a write over the counts that successive calls reported.
pub open spec fn write_steps(total: nat, written: nat, counts: Seq<usize>) -> Result<
    nat,
    TransferError,
>
    decreases counts.len(),
{
    if counts.len() == 0 {
        Ok(written)
    } else {
        match write_step(total, written, counts[0] as nat) {
            Ok(next) => write_steps(total, next, counts.drop_first()),
            Err(e) => Err(e),
        }
    }
}

/// What the calls of a write put into the file: each call writes, at
/// `start + written`, the next `n` bytes of `data`.
pub open spec fn apply_writes(
    file: Seq<u8>,
    start: nat,
    data: Seq<u8>,
    written: nat,
    counts: Seq<usize>,
) -> Seq<u8>
    decreases counts.len(),
{
    if counts.len() == 0 {
        file
    } else {
        let n = counts[0] as nat;
        apply_writes(
            overwrite(file, start + written, data.subrange(written as int, (written + n) as int)),
            start,
            data,
            written + n,
            counts.drop_first(),
        )
    }
}

/// Tracks a read of `len` bytes at `offset` that is carried out by calls
/// which may each deliver fewer bytes than asked for.
pub struct ReadCursor {
    start: u64,
    total: usize,
    received: Vec<u8>,
}

impl ReadCursor {
    /// The file offset of the span's first byte.
    pub closed spec fn start(&self) -> nat {
        self.start as nat
    }

    /// The span's length.
    pub closed spec fn total(&self) -> nat {
        self.total as nat
    }

    /// The bytes received so far, in file order from `start`.
    pub closed spec fn received(&self) -> Seq<u8> {
        self.received@
    }

    /// No more bytes were received than the span holds, and the span fits in
    /// file offsets.
    pub open spec fn wf(&self) -> bool {
        &&& self.received().len() <= self.total()
        &&& span_fits(self.start(), self.total())
    }

    /// Starts a read of `len` bytes at `offset`; fails when the span ends
    /// beyond the largest file offset.
    pub fn new(offset: u64, len: usize) -> (r: Result<ReadCursor, TransferError>)
        ensures
            r is Ok <==> span_fits(offset as nat, len as nat),
            r is Err ==> r->Err_0 == TransferError::OffsetOverflow,
            r is Ok ==> {
                let c = r->Ok_0;
                &&& c.wf()
                &&& c.start() == offset
                &&& c.total() == len
                &&& c.received() == Seq::<u8>::empty()
            },
    {
        if offset as u128 + len as u128 > u64::MAX as u128 {
            Err(TransferError::OffsetOverflow)
        } else {
            Ok(ReadCursor { start: offset, total: len, received: Vec::new() })
        }
    }

    /// The file offset at which the next call reads.
    pub fn next_offset(&self) -> (r: u64)
        requires
            self.wf(),
        ensures
            r == self.start() + self.received().len(),
    {
        self.start + self.received.len() as u64
    }

    /// How many bytes of the span are still to be read.
    pub fn remaining(&self) -> (r: usize)
        requires
            self.wf(),
        ensures
            r == self.total() - self.received().len(),
    {
        self.total - self.received.len()
    }

    /// Whether the whole span has been received.
    pub fn is_complete(&self) -> (r: bool)
        requires
            self.wf(),
        ensures
            r == (self.received().len() == self.total()),
    {
        self.received.len() == self.total
    }

    /// Takes the bytes that one call delivered at `next_offset`. An empty
    /// chunk is `NoProgress` and one longer than what remains is `Overrun`;
    /// either leaves the cursor as it was.
    pub fn accept(&mut self, chunk: &[u8]) -> (r: Result<(), TransferError>)
        requires
            old(self).wf(),
        ensures
            final(self).wf(),
            final(self).start() == old(self).start(),
            final(self).total() == old(self).total(),
            match read_step(old(self).total(), old(self).received(), chunk@) {
                Ok(next) => r is Ok && final(self).received() == next,
                Err(e) => r == Err::<(), TransferError>(e) && final(self).received() == old(
                    self,
                ).received(),
            },
    {
        let n = chunk.len();
        if n == 0 {
            return Err(TransferError::NoProgress);
        }
        if n > self.total - self.received.len() {
            return Err(TransferError::Overrun);
        }
        let ghost before = self.received@;
        let mut i: usize = 0;
        while i < n
            invariant
                0 <= i <= n,
                n == chunk@.len(),
                before.len() + n <= self.total,
                self.received@ == before + chunk@.subrange(0, i as int),
                self.start == old(self).start,
                self.total == old(self).total,
                span_fits(self.start as nat, self.total as nat),
            decreases n - i,
        {
            self.received.push(chunk[i]);
            proof {
                assert(chunk@.subrange(0, i + 1) =~= chunk@.subrange(0, i as int).push(chunk@[i as int]));
                assert(before + chunk@.subrange(0, i + 1) =~= (before + chunk@.subrange(0, i as int)).push(chunk@[i as int]));
            }
            i = i + 1;
        }
        assert(chunk@.subrange(0, n as int) =~= chunk@);
        Ok(())
    }

    /// The bytes of the completed span.
    pub fn into_bytes(self) -> (r: Vec<u8>)
        requires
            self.wf(),
            self.received().len() == self.total(),
        ensures
            r@ == self.received(),
            r@.len() == self.total(),
    {
        self.received
    }
}

/// Tracks a write of `len` bytes at `offset` that is carried out by calls
/// which may each take fewer bytes than offered. Each call is handed the
/// bytes of the data from `written()` on, at `next_offset()`.
pub struct WriteCursor {
    start: u64,
    total: usize,
    written: usize,
}

impl WriteCursor {
    /// The file offset of the span's first byte.
    pub closed spec fn start(&self) -> nat {
        self.start as nat
    }

    /// The span's length.
    pub closed spec fn total(&self) -> nat {
        self.total as nat
    }

    /// How many bytes have been written so far.
    pub closed spec fn written_spec(&self) -> nat {
        self.written as nat
    }

    /// No more bytes were written than the span holds, and the span fits in
    /// file offsets.
    pub open spec fn wf(&self) -> bool {
        &&& self.written_spec() <= self.total()
        &&& span_fits(self.start(), self.total())
    }

    /// Starts a write of `len` bytes at `offset`; fails when the span ends
    /// beyond the largest file offset.
    pub fn new(offset: u64, len: usize) -> (r: Result<WriteCursor, TransferError>)
        ensures
            r is Ok <==> span_fits(offset as nat, len as nat),
            r is Err ==> r->Err_0 == TransferError::OffsetOverflow,
            r is Ok ==> {
                let c = r->Ok_0;
                &&& c.wf()
                &&& c.start() == offset
                &&& c.total() == len
                &&& c.written_spec() == 0
            },
    {
        if offset as u128 + len as u128 > u64::MAX as u128 {
            Err(TransferError::OffsetOverflow)
        } else {
            Ok(WriteCursor { start: offset, total: len, written: 0 })
        }
    }

    /// How many bytes of the data have been written: the next call is handed
    /// the data from this index on.
    pub fn written(&self) -> (r: usize)
        ensures
            r == self.written_spec(),
    {
        self.written
    }

    /// The file offset at which the next call writes.
    pub fn next_offset(&self) -> (r: u64)
        requires
            self.wf(),
        ensures
            r == self.start() + self.written_spec(),
    {
        self.start + self.written as u64
    }

    /// How many bytes of the span are still to be written.
    pub fn remaining(&self) -> (r: usize)
        requires
            self.wf(),
        ensures
            r == self.total() - self.written_spec(),
    {
        self.total - self.written
    }

    /// Whether the whole span has been written.
    pub fn is_complete(&self) -> (r: bool)
        requires
            self.wf(),
        ensures
            r == (self.written_spec() == self.total()),
    {
        self.written == self.total
    }

    /// Takes the count of bytes that one call wrote. Zero is `NoProgress`
    /// and more than what remains is `Overrun`; either leaves the cursor as
    /// it was.
    pub fn advance(&mut self, n: usize) -> (r: Result<(), TransferError>)
        requires
            old(self).wf(),
        ensures
            final(self).wf(),
            final(self).start() == old(self).start(),
            final(self).total() == old(self).total(),
            match write_step(old(self).total(), old(self).written_spec(), n as nat) {
                Ok(next) => r is Ok && final(self).written_spec() == next,
                Err(e) => r == Err::<(), TransferError>(e) && final(self).written_spec() == old(
                    self,
                ).written_spec(),
            },
    {
        if n == 0 {
            return Err(TransferError::NoProgress);
        }
        if n > self.total - self.written {
            return Err(TransferError::Overrun);
        }
        self.written = self.written + n;
        Ok(())
    }
}

/// Why a transfer through a primitive failed: the primitive's own error, or
/// the transfer's.
#[derive(Debug, PartialEq, Eq)]
pub enum TransferFailure<E> {
    /// The primitive failed; its error is passed on as it came.
    Io(E),
    /// The transfer could not go on.
    Stopped(TransferError),
}

/// The bytes of the delivered chunks, joined in order.
pub open spec fn joined(chunks: Seq<Vec<u8>>) -> Seq<u8>
    decreases chunks.len(),
{
    if chunks.len() == 0 {
        Seq::empty()
    } else {
        joined(chunks.drop_last()) + chunks.last()@
    }
}

/// Where, counted from the span's start, the `i`-th delivered chunk begins.
pub open spec fn chunk_start(chunks: Seq<Vec<u8>>, i: int) -> nat {
    joined(chunks.take(i)).len()
}

/// Whether `chunks` are what `read_once` may deliver, call by call, to a read
/// of `total` bytes at `offset`: each call asks at the offset where the
/// chunks before it end, for what is left of the span.
pub open spec fn delivered_by<E, F: Fn(u64, usize) -> Result<Vec<u8>, E>>(
    read_once: F,
    offset: nat,
    total: nat,
    chunks: Seq<Vec<u8>>,
) -> bool {
    forall|i: int|
        #![trigger chunks[i]]
        0 <= i < chunks.len() ==> read_once.ensures(
            ((offset + chunk_start(chunks, i)) as u64, (total - chunk_start(chunks, i)) as usize),
            Ok::<Vec<u8>, E>(chunks[i]),
        )
}

/// Whether a call at `o` for `m` bytes is one that a read of `len` bytes at
/// `offset` makes: it asks, inside the span, for all that is left of it.
pub open spec fn read_call_in_span(offset: nat, len: nat, o: u64, m: usize) -> bool {
    &&& offset <= o
    &&& o + m == offset + len
    &&& 0 < m
}

/// Whether each call that a read of `len` bytes at `offset` makes succeeds
/// with at least one and at most the asked number of bytes.
pub open spec fn read_progresses<E, F: Fn(u64, usize) -> Result<Vec<u8>, E>>(
    read_once: F,
    offset: nat,
    len: nat,
) -> bool {
    forall|o: u64, m: usize, res: Result<Vec<u8>, E>|
        read_call_in_span(offset, len, o, m) && #[trigger] read_once.ensures((o, m), res) ==> {
            &&& res is Ok
            &&& 0 < res->Ok_0@.len() <= m
        }
}

/// Whether each call that a read of `len` bytes at `offset` makes succeeds
/// with at least one and at most the asked number of bytes, and those are
/// the bytes that `file` holds from the asked offset on.
pub open spec fn reads_from<E, F: Fn(u64, usize) -> Result<Vec<u8>, E>>(
    read_once: F,
    offset: nat,
    len: nat,
    file: Seq<u8>,
) -> bool {
    forall|o: u64, m: usize, res: Result<Vec<u8>, E>|
        read_call_in_span(offset, len, o, m) && #[trigger] read_once.ensures((o, m), res) ==> {
            &&& res is Ok
            &&& 0 < res->Ok_0@.len() <= m
            &&& res->Ok_0@ == file.subrange(o as int, o + res->Ok_0@.len())
        }
}

/// Reads exactly `len` bytes at `offset` through `read_once`, a primitive
/// that reads at a given offset at most the given count of bytes and may
/// deliver fewer. Each call asks, at the offset where the bytes received so
/// far end, for what is left of the span; no call is made once the span is
/// filled, so an empty span makes none. An empty chunk ends the read with
/// `NoProgress`, a chunk longer than asked for with `Overrun`, an error of
/// the primitive with that error. A partly filled buffer is never returned.
pub fn read_fully<E, F: Fn(u64, usize) -> Result<Vec<u8>, E>>(
    offset: u64,
    len: usize,
    read_once: F,
) -> (r: Result<Vec<u8>, TransferFailure<E>>)
    requires
        forall|o: u64, m: usize|
            read_call_in_span(offset as nat, len as nat, o, m) ==> #[trigger] read_once.requires(
                (o, m),
            ),
    ensures
        !span_fits(offset as nat, len as nat) <==> r == Err::<Vec<u8>, TransferFailure<E>>(
            TransferFailure::Stopped(TransferError::OffsetOverflow),
        ),
        span_fits(offset as nat, len as nat) && len == 0 ==> r is Ok,
        span_fits(offset as nat, len as nat) && read_progresses(
            read_once,
            offset as nat,
            len as nat,
        ) ==> r is Ok,
        forall|file: Seq<u8>|
            span_fits(offset as nat, len as nat) && offset + len <= file.len() && #[trigger] reads_from(
                read_once,
                offset as nat,
                len as nat,
                file,
            ) ==> r is Ok && r->Ok_0@ == file.subrange(offset as int, offset + len),
        r is Ok ==> r->Ok_0@.len() == len,
        r is Ok ==> exists|chunks: Seq<Vec<u8>>|
            delivered_by(read_once, offset as nat, len as nat, chunks) && #[trigger] joined(chunks)
                == r->Ok_0@,
        r is Err && r->Err_0 is Io ==> exists|o: u64, m: usize|
            read_call_in_span(offset as nat, len as nat, o, m) && #[trigger] read_once.ensures(
                (o, m),
                Err::<Vec<u8>, E>(r->Err_0->Io_0),
            ),
{
    let mut cursor = match ReadCursor::new(offset, len) {
        Ok(c) => c,
        Err(e) => return Err(TransferFailure::Stopped(e)),
    };
    let ghost mut chunks: Seq<Vec<u8>> = Seq::empty();
    while !cursor.is_complete()
        invariant
            cursor.wf(),
            cursor.start() == offset,
            cursor.total() == len,
            span_fits(offset as nat, len as nat),
            forall|o: u64, m: usize|
                read_call_in_span(offset as nat, len as nat, o, m) ==> #[trigger] read_once.requires(
                    (o, m),
                ),
            delivered_by(read_once, offset as nat, len as nat, chunks),
            joined(chunks) == cursor.received(),
            forall|file: Seq<u8>|
                offset + len <= file.len() && #[trigger] reads_from(
                    read_once,
                    offset as nat,
                    len as nat,
                    file,
                ) ==> cursor.received() == file.subrange(
                    offset as int,
                    offset + cursor.received().len(),
                ),
        decreases cursor.total() - cursor.received().len(),
    {
        let at = cursor.next_offset();
        let want = cursor.remaining();
        assert(read_call_in_span(offset as nat, len as nat, at, want));
        let ghost before_received = cursor.received();
        match read_once(at, want) {
            Ok(chunk) => match cursor.accept(chunk.as_slice()) {
                Ok(()) => {
                    proof {
                        let before = chunks;
                        let after = before.push(chunk);
                        assert(after.drop_last() =~= before);
                        assert(after.take(before.len() as int) =~= before);
                        assert forall|i: int| 0 <= i < before.len() implies after.take(i)
                            =~= before.take(i) by {}
                        chunks = after;
                        assert forall|file: Seq<u8>|
                            offset + len <= file.len() && #[trigger] reads_from(
                                read_once,
                                offset as nat,
                                len as nat,
                                file,
                            ) implies cursor.received() == file.subrange(
                            offset as int,
                            offset + cursor.received().len(),
                        ) by {
                            assert(read_once.ensures((at, want), Ok::<Vec<u8>, E>(chunk)));
                            assert(chunk@ == file.subrange(at as int, at + chunk@.len()));
                            assert(cursor.received() == before_received + chunk@);
                            assert(file.subrange(offset as int, offset + cursor.received().len())
                                =~= file.subrange(offset as int, at as int) + file.subrange(
                                at as int,
                                at + chunk@.len(),
                            ));
                        }
                    }
                },
                Err(e) => {
                    assert(read_once.ensures((at, want), Ok::<Vec<u8>, E>(chunk)));
                    return Err(TransferFailure::Stopped(e));
                },
            },
            Err(e) => {
                let r: Result<Vec<u8>, TransferFailure<E>> = Err(TransferFailure::Io(e));
                assert(read_once.ensures((at, want), Err::<Vec<u8>, E>(r->Err_0->Io_0)));
                assert(read_call_in_span(offset as nat, len as nat, at, want));
                return r;
            },
        }
    }
    Ok(cursor.into_bytes())
}

/// Whether `write_once` may report `n` when handed the bytes of `data` from
/// `done` on, at `offset + done`.
pub open spec fn took<E, F: Fn(u64, &[u8]) -> Result<usize, E>>(
    write_once: F,
    offset: nat,
    data: Seq<u8>,
    done: nat,
    n: usize,
) -> bool {
    exists|d: &[u8]|
        d@ == data.subrange(done as int, data.len() as int) && #[trigger] write_once.ensures(
            ((offset + done) as u64, d),
            Ok::<usize, E>(n),
        )
}

/// Whether `counts` are what `write_once` may report, call by call, to a
/// write of `data` at `offset`: each call is handed the data from where the
/// counts before it end, at the matching offset.
pub open spec fn taken_by<E, F: Fn(u64, &[u8]) -> Result<usize, E>>(
    write_once: F,
    offset: nat,
    data: Seq<u8>,
    counts: Seq<usize>,
) -> bool {
    forall|i: int|
        0 <= i < counts.len() ==> took(
            write_once,
            offset,
            data,
            reported(counts.take(i)),
            #[trigger] counts[i],
        )
}

proof fn lemma_taken_by_push<E, F: Fn(u64, &[u8]) -> Result<usize, E>>(
    write_once: F,
    offset: nat,
    data: Seq<u8>,
    counts: Seq<usize>,
    n: usize,
)
    requires
        taken_by(write_once, offset, data, counts),
        took(write_once, offset, data, reported(counts), n),
    ensures
        taken_by(write_once, offset, data, counts.push(n)),
        reported(counts.push(n)) == reported(counts) + n,
{
    let after = counts.push(n);
    assert(after.drop_last() =~= counts);
    assert forall|i: int| 0 <= i < after.len() implies took(
        write_once,
        offset,
        data,
        reported(after.take(i)),
        #[trigger] after[i],
    ) by {
        if i < counts.len() {
            assert(after.take(i) =~= counts.take(i));
            assert(after[i] == counts[i]);
        } else {
            assert(after.take(i) =~= counts);
        }
    }
}

/// Whether a call at `o` handed `d` is one that a write of `data` at
/// `offset` makes: it is handed, inside the span, all that is left of the
/// data, at the offset where that rest belongs.
pub open spec fn write_call_in_span(offset: nat, data: Seq<u8>, o: u64, d: Seq<u8>) -> bool {
    &&& offset <= o
    &&& o + d.len() == offset + data.len()
    &&& 0 < d.len()
    &&& d == data.subrange(o - offset, data.len() as int)
}

/// Whether each call that a write of `data` at `offset` makes succeeds and
/// reports at least one and at most the handed number of bytes.
pub open spec fn write_progresses<E, F: Fn(u64, &[u8]) -> Result<usize, E>>(
    write_once: F,
    offset: nat,
    data: Seq<u8>,
) -> bool {
    forall|o: u64, d: &[u8], res: Result<usize, E>|
        write_call_in_span(offset, data, o, d@) && #[trigger] write_once.ensures((o, d), res) ==> {
            &&& res is Ok
            &&& 0 < res->Ok_0 <= d@.len()
        }
}

/// Writes all of `data` at `offset` through `write_once`, a primitive that
/// writes at a given offset a prefix of the bytes it is handed and reports
/// its length. Each call is handed the rest of the data at the offset where
/// that rest belongs; no call is made once all of it is written, so empty
/// data makes none. A report of zero ends the write with `NoProgress`, one
/// of more than was handed with `Overrun`, an error of the primitive with
/// that error.
pub fn write_fully<E, F: Fn(u64, &[u8]) -> Result<usize, E>>(
    offset: u64,
    data: &[u8],
    write_once: F,
) -> (r: Result<(), TransferFailure<E>>)
    requires
        forall|o: u64, d: &[u8]|
            write_call_in_span(offset as nat, data@, o, d@) ==> #[trigger] write_once.requires(
                (o, d),
            ),
    ensures
        !span_fits(offset as nat, data@.len()) <==> r == Err::<(), TransferFailure<E>>(
            TransferFailure::Stopped(TransferError::OffsetOverflow),
        ),
        span_fits(offset as nat, data@.len()) && data@.len() == 0 ==> r is Ok,
        span_fits(offset as nat, data@.len()) && write_progresses(
            write_once,
            offset as nat,
            data@,
        ) ==> r is Ok,
        r is Ok ==> exists|counts: Seq<usize>|
            {
                &&& taken_by(write_once, offset as nat, data@, counts)
                &&& #[trigger] reported(counts) == data@.len()
                &&& forall|i: int| 0 <= i < counts.len() ==> #[trigger] counts[i] > 0
                &&& write_steps(data@.len(), 0, counts) == Ok::<nat, TransferError>(data@.len())
                &&& forall|file: Seq<u8>|
                    offset + data@.len() <= file.len() ==> #[trigger] apply_writes(
                        file,
                        offset as nat,
                        data@,
                        0,
                        counts,
                    ) == overwrite(file, offset as nat, data@)
            },
        r is Err && r->Err_0 is Io ==> exists|o: u64, d: &[u8]|
            write_call_in_span(offset as nat, data@, o, d@) && #[trigger] write_once.ensures(
                (o, d),
                Err::<usize, E>(r->Err_0->Io_0),
            ),
{
    let mut cursor = match WriteCursor::new(offset, data.len()) {
        Ok(c) => c,
        Err(e) => return Err(TransferFailure::Stopped(e)),
    };
    let ghost mut counts: Seq<usize> = Seq::empty();
    while !cursor.is_complete()
        invariant
            cursor.wf(),
            cursor.start() == offset,
            cursor.total() == data@.len(),
            forall|o: u64, d: &[u8]|
                write_call_in_span(offset as nat, data@, o, d@) ==> #[trigger] write_once.requires(
                    (o, d),
                ),
            taken_by(write_once, offset as nat, data@, counts),
            reported(counts) == cursor.written_spec(),
            forall|i: int| 0 <= i < counts.len() ==> #[trigger] counts[i] > 0,
        decreases cursor.total() - cursor.written_spec(),
    {
        let at = cursor.next_offset();
        let rest = vstd::slice::slice_subrange(data, cursor.written(), data.len());
        assert(rest@ == data@.subrange(reported(counts) as int, data@.len() as int));
        assert(at == (offset + reported(counts)) as u64);
        assert(write_call_in_span(offset as nat, data@, at, rest@));
        match write_once(at, rest) {
            Ok(n) => match cursor.advance(n) {
                Ok(()) => {
                    proof {
                        assert(write_once.ensures((at, rest), Ok::<usize, E>(n)));
                        assert(took(write_once, offset as nat, data@, reported(counts), n));
                        lemma_taken_by_push(write_once, offset as nat, data@, counts, n);
                        counts = counts.push(n);
                    }
                },
                Err(e) => {
                    assert(write_once.ensures((at, rest), Ok::<usize, E>(n)));
                    return Err(TransferFailure::Stopped(e));
                },
            },
            Err(e) => {
                let r: Result<(), TransferFailure<E>> = Err(TransferFailure::Io(e));
                assert(write_once.ensures((at, rest), Err::<usize, E>(r->Err_0->Io_0)));
                return r;
            },
        }
    }
    proof {
        assert forall|file: Seq<u8>| offset + data@.len() <= file.len() implies #[trigger] apply_writes(
            file,
            offset as nat,
            data@,
            0,
            counts,
        ) == overwrite(file, offset as nat, data@) by {
            short_writes_write_all(file, offset as nat, data@, counts);
        }
        if data@.len() == 0 {
            assert(counts.len() == 0) by {
                if counts.len() > 0 {
                    lemma_reported_first(counts);
                }
            }
        } else {
            short_writes_write_all(
                Seq::new((offset + data@.len()) as nat, |i: int| 0u8),
                offset as nat,
                data@,
                counts,
            );
        }
    }
    Ok(())
}

proof fn lemma_read_steps_concatenate(total: nat, received: Seq<u8>, chunks: Seq<Seq<u8>>)
    requires
        forall|i: int| 0 <= i < chunks.len() ==> #[trigger] chunks[i].len() > 0,
        received.len() + chunks.flatten().len() <= total,
    ensures
        read_steps(total, received, chunks) == Ok::<Seq<u8>, TransferError>(
            received + chunks.flatten(),
        ),
    decreases chunks.len(),
{
    if chunks.len() == 0 {
        assert(received + chunks.flatten() =~= received);
    } else {
        let rest = chunks.drop_first();
        assert(chunks[0].len() > 0);
        assert(chunks.flatten() == chunks[0] + rest.flatten());
        assert forall|i: int| 0 <= i < rest.len() implies #[trigger] rest[i].len() > 0 by {
            assert(rest[i] == chunks[i + 1]);
        }
        lemma_read_steps_concatenate(total, received + chunks[0], rest);
        assert(received + chunks[0] + rest.flatten() =~= received + chunks.flatten());
    }
}

/// A read carried out by calls that each deliver part of the span, none of
/// them empty, and that together deliver the whole span, succeeds with the
/// chunks joined in order: the buffer is filled exactly.
pub proof fn short_reads_fill_span(total: nat, chunks: Seq<Seq<u8>>)
    requires
        forall|i: int| 0 <= i < chunks.len() ==> #[trigger] chunks[i].len() > 0,
        chunks.flatten().len() == total,
    ensures
        read_steps(total, Seq::empty(), chunks) == Ok::<Seq<u8>, TransferError>(chunks.flatten()),
        chunks.flatten().len() == total,
{
    lemma_read_steps_concatenate(total, Seq::empty(), chunks);
    assert(Seq::<u8>::empty() + chunks.flatten() =~= chunks.flatten());
}

proof fn lemma_overwrite_adjacent(file: Seq<u8>, at: nat, d1: Seq<u8>, d2: Seq<u8>)
    requires
        at + d1.len() + d2.len() <= file.len(),
    ensures
        overwrite(overwrite(file, at, d1), at + d1.len(), d2) == overwrite(file, at, d1 + d2),
{
    let once = overwrite(file, at, d1);
    assert(once.len() == file.len());
    assert(overwrite(once, at + d1.len(), d2) =~= overwrite(file, at, d1 + d2));
}

proof fn lemma_reported_first(counts: Seq<usize>)
    requires
        counts.len() > 0,
    ensures
        reported(counts) == counts[0] + reported(counts.drop_first()),
    decreases counts.len(),
{
    if counts.len() > 1 {
        let front = counts.drop_last();
        lemma_reported_first(front);
        assert(front.drop_first() =~= counts.drop_first().drop_last());
        assert(front[0] == counts[0]);
    } else {
        assert(counts.drop_last() =~= Seq::<usize>::empty());
        assert(counts.drop_first() =~= Seq::<usize>::empty());
    }
}

proof fn lemma_writes_cover_rest(
    file: Seq<u8>,
    start: nat,
    data: Seq<u8>,
    written: nat,
    counts: Seq<usize>,
)
    requires
        forall|i: int| 0 <= i < counts.len() ==> #[trigger] counts[i] > 0,
        written + reported(counts) == data.len(),
        start + data.len() <= file.len(),
    ensures
        write_steps(data.len(), written, counts) == Ok::<nat, TransferError>(data.len()),
        apply_writes(file, start, data, written, counts) == overwrite(
            file,
            start + written,
            data.subrange(written as int, data.len() as int),
        ),
    decreases counts.len(),
{
    if counts.len() == 0 {
        assert(data.subrange(written as int, data.len() as int) =~= Seq::<u8>::empty());
        assert(overwrite(file, start + written, Seq::<u8>::empty()) =~= file);
    } else {
        let n = counts[0] as nat;
        let rest = counts.drop_first();
        lemma_reported_first(counts);
        assert forall|i: int| 0 <= i < rest.len() implies #[trigger] rest[i] > 0 by {
            assert(rest[i] == counts[i + 1]);
        }
        let d1 = data.subrange(written as int, (written + n) as int);
        let d2 = data.subrange((written + n) as int, data.len() as int);
        let next = overwrite(file, start + written, d1);
        assert(next.len() == file.len());
        lemma_writes_cover_rest(next, start, data, written + n, rest);
        lemma_overwrite_adjacent(file, start + written, d1, d2);
        assert(d1 + d2 =~= data.subrange(written as int, data.len() as int));
    }
}

/// A write carried out by calls that each take part of what is offered,
/// none of them nothing, and that together take the whole data, succeeds,
/// and leaves the file as one write of the whole data at the start would.
pub proof fn short_writes_write_all(file: Seq<u8>, start: nat, data: Seq<u8>, counts: Seq<usize>)
    requires
        forall|i: int| 0 <= i < counts.len() ==> #[trigger] counts[i] > 0,
        reported(counts) == data.len(),
        start + data.len() <= file.len(),
    ensures
        write_steps(data.len(), 0, counts) == Ok::<nat, TransferError>(data.len()),
        apply_writes(file, start, data, 0, counts) == overwrite(file, start, data),
{
    lemma_writes_cover_rest(file, start, data, 0, counts);
    assert(data.subrange(0, data.len() as int) =~= data);
}

} // verus!
