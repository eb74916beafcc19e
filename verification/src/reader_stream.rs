//! The chunk transform: reads of a bounded size go in, encoded chunks
//! come out, either one chunk at a time or through a buffer that a reader
//! empties at its own pace.

use crate::encoding::{lemma_base64_concat, transfer, Encoding};
use crate::stream::{
    admissible, awaited, awaits_read, bytes_of, consumed, fails, fed, fill_is, next_is, offered,
    read_is, resolved, skip_empty, Item, Poll, StreamChunk,
};
use vstd::arithmetic::div_mod::{lemma_fundamental_div_mod, lemma_mod_multiples_basic};
use vstd::prelude::*;
use vstd::slice::{slice_subrange, slice_to_vec};

verus! {

/// Buffer size of a transform that is created without a size of its own.
pub const CHUNK_SIZE: usize = 1024;

/// Rounds `n` up to the next multiple of `multiple`.
///
/// The result is the least multiple of `multiple` that is not below `n`:
/// the first two postconditions admit no other value, and the third says
/// which it is.
pub fn nearest_multiple_of(n: usize, multiple: usize) -> (r: usize)
    requires
        multiple > 0,
        n % multiple == 0 || n + (multiple - n % multiple) <= usize::MAX,
    ensures
        r % multiple == 0,
        n <= r < n + multiple,
        r == if n % multiple == 0 {
            n as int
        } else {
            n + (multiple - n % multiple)
        },
{
    let rem: usize = n % multiple;
    if rem == 0 {
        n
    } else {
        let r: usize = n + (multiple - rem);
        proof {
            lemma_fundamental_div_mod(n as int, multiple as int);
            assert(r == multiple * (n / multiple) + multiple);
            assert(multiple * (n / multiple) + multiple == (n / multiple + 1) * multiple)
                by (nonlinear_arith);
            lemma_mod_multiples_basic((n / multiple + 1) as int, multiple as int);
        }
        r
    }
}

/// Rounding up to a multiple of three never leaves `usize`, whose
/// greatest value is such a multiple.
pub proof fn lemma_round_to_three_fits(n: usize)
    ensures
        n % 3 == 0 || n + (3 - n % 3) <= usize::MAX,
{
    assert(usize::MAX % 3 == 0);
}

/// Where the raw bytes of a payload come from.
#[derive(Debug)]
pub enum Payload {
    /// Bytes that are held in memory.
    Bytes(Vec<u8>),
    /// A byte source outside the encoder, with the key by which its owner
    /// knows it and its length where that is known. Whoever drives the
    /// encoder reads from it and reports what was read.
    Reader { key: usize, len: Option<usize> },
}

impl Payload {
    /// The number of raw bytes, where it is known.
    pub open spec fn spec_len(&self) -> Option<usize> {
        match self {
            Payload::Bytes(data) => Some(data.len()),
            Payload::Reader { len, .. } => *len,
        }
    }

    #[verifier::when_used_as_spec(spec_len)]
    pub fn len(&self) -> (n: Option<usize>)
        ensures
            n == self.spec_len(),
    {
        match self {
            Payload::Bytes(data) => Some(data.len()),
            Payload::Reader { len, .. } => *len,
        }
    }

    /// Whether `encoding` can take the payload: see `fits`.
    pub fn can_encode(&self, encoding: Option<Encoding>) -> (ok: bool)
        ensures
            ok == self.fits(encoding),
    {
        match self {
            Payload::Bytes(data) => match encoding {
                Some(e) => e.takes(data.len()),
                None => true,
            },
            Payload::Reader { .. } => true,
        }
    }

    /// Whether `encoding` can take the bytes in memory in steps of any
    /// size. Of an outside source this asks nothing: each of its reads
    /// answers for itself.
    pub open spec fn fits(&self, encoding: Option<Encoding>) -> bool {
        self matches Payload::Bytes(data) ==> (encoding matches Some(e) ==> e.accepts(data@.len()))
    }
}

/// The size of the reads of a transform: the size asked for, or
/// `CHUNK_SIZE`, rounded up to a multiple of three under base64, so that
/// no read but the last ends inside a group of three bytes.
pub open spec fn read_size(buf_size: Option<usize>, encoding: Option<Encoding>) -> nat {
    let size = match buf_size {
        Some(n) => n,
        None => CHUNK_SIZE,
    };
    if encoding == Some(Encoding::Base64) && size % 3 != 0 {
        (size + (3 - size % 3)) as nat
    } else {
        size as nat
    }
}

/// The chunks of `data` when it is read `size` bytes at a time and each
/// read is encoded by itself.
pub open spec fn memory_items(data: Seq<u8>, size: nat, encoding: Option<Encoding>) -> Seq<Item>
    decreases data.len(),
{
    if size == 0 || data.len() == 0 {
        Seq::empty()
    } else {
        let n = if size < data.len() {
            size as int
        } else {
            data.len() as int
        };
        seq![Item::Chunk(transfer(encoding, data.take(n)))] + memory_items(
            data.skip(n),
            size,
            encoding,
        )
    }
}

/// What a payload has to deliver when it is read `size` bytes at a time.
pub open spec fn payload_items(reader: Payload, size: nat, encoding: Option<Encoding>) -> Seq<
    Item,
> {
    match reader {
        Payload::Bytes(data) => memory_items(data@, size, encoding),
        Payload::Reader { key, .. } => if size == 0 {
            Seq::empty()
        } else {
            seq![Item::Source { key, max: size, encoding }]
        },
    }
}

/// Whether pieces that are encoded one by one give, laid end to end, the
/// encoding of the whole, provided that every piece but the last has
/// `size` bytes. The identity encodings do so at every size, base64 where
/// the size is a multiple of three. Quoted-printable breaks its lines by
/// what came before, and makes no such promise.
pub open spec fn joins(encoding: Option<Encoding>, size: nat) -> bool {
    match encoding {
        None | Some(Encoding::SevenBit) | Some(Encoding::EightBit) => true,
        Some(Encoding::Base64) => size % 3 == 0,
        Some(Encoding::QuotedPrintable) => false,
    }
}

/// The chunks that a sequence of reads turns into: each read encoded by
/// itself.
pub open spec fn read_items(reads: Seq<Seq<u8>>, encoding: Option<Encoding>) -> Seq<Item> {
    Seq::new(reads.len(), |i: int| Item::Chunk(transfer(encoding, reads[i])))
}

/// The size of the reads under base64 is a multiple of three, so a read
/// that fills its buffer never ends inside a group of three bytes.
pub proof fn lemma_read_size_joins(buf_size: Option<usize>, encoding: Option<Encoding>)
    requires
        encoding != Some(Encoding::QuotedPrintable),
    ensures
        joins(encoding, read_size(buf_size, encoding)),
{
}

/// No chunk boundary splits a base64 group: where every read but the
/// last holds a multiple of three bytes, the chunks laid end to end are
/// the encoding of the reads laid end to end. The same holds of the
/// identity encodings, whatever the reads hold.
pub proof fn lemma_reads_join(reads: Seq<Seq<u8>>, encoding: Option<Encoding>)
    requires
        encoding != Some(Encoding::QuotedPrintable),
        forall|i: int|
            0 <= i < reads.len() - 1 ==> joins(encoding, (#[trigger] reads[i]).len()),
    ensures
        bytes_of(read_items(reads, encoding)) == transfer(encoding, reads.flatten()),
    decreases reads.len(),
{
    if reads.len() == 0 {
        assert(transfer(encoding, Seq::<u8>::empty()) =~= Seq::<u8>::empty());
    } else {
        let rest = reads.drop_first();
        assert(read_items(reads, encoding).skip(1) =~= read_items(rest, encoding));
        assert forall|i: int| 0 <= i < rest.len() - 1 implies joins(
            encoding,
            (#[trigger] rest[i]).len(),
        ) by {
            assert(rest[i] == reads[i + 1]);
        }
        lemma_reads_join(rest, encoding);
        if rest.len() == 0 {
            assert(rest.flatten() =~= Seq::<u8>::empty());
            assert(reads.flatten() =~= reads[0]);
            assert(transfer(encoding, Seq::<u8>::empty()) =~= Seq::<u8>::empty());
        } else {
            assert(joins(encoding, reads[0].len()));
            if encoding == Some(Encoding::Base64) {
                lemma_base64_concat(reads[0], rest.flatten());
            }
        }
    }
}

/// An in-memory payload that is read `size` bytes at a time gives, chunk
/// after chunk, the encoding of the whole payload, for every encoding
/// that joins at `size`.
pub proof fn lemma_memory_items_join(data: Seq<u8>, size: nat, encoding: Option<Encoding>)
    requires
        size > 0,
        joins(encoding, size),
    ensures
        bytes_of(memory_items(data, size, encoding)) == transfer(encoding, data),
    decreases data.len(),
{
    if data.len() == 0 {
        assert(transfer(encoding, data) =~= Seq::<u8>::empty());
    } else {
        let n = if size < data.len() {
            size as int
        } else {
            data.len() as int
        };
        let items = memory_items(data, size, encoding);
        assert(items.skip(1) =~= memory_items(data.skip(n), size, encoding));
        lemma_memory_items_join(data.skip(n), size, encoding);
        assert(data =~= data.take(n) + data.skip(n));
        if n == data.len() {
            assert(transfer(encoding, data.skip(n)) =~= Seq::<u8>::empty());
            assert(data.take(n) =~= data);
        } else if encoding == Some(Encoding::Base64) {
            lemma_base64_concat(data.take(n), data.skip(n));
        }
    }
}

/// The reads that `data` gives when each read but the last fills a buffer
/// of `size` bytes.
pub open spec fn full_reads(data: Seq<u8>, size: nat) -> Seq<Seq<u8>>
    decreases data.len(),
{
    if size == 0 || data.len() == 0 {
        Seq::empty()
    } else {
        let n = if size < data.len() {
            size as int
        } else {
            data.len() as int
        };
        seq![data.take(n)] + full_reads(data.skip(n), size)
    }
}

/// A payload in memory delivers what a source delivers that hands out the
/// same bytes in reads that fill the buffer: where the bytes come from
/// makes no difference to the chunks.
pub proof fn lemma_memory_items_are_reads(data: Seq<u8>, size: nat, encoding: Option<Encoding>)
    ensures
        memory_items(data, size, encoding) == read_items(full_reads(data, size), encoding),
        size > 0 ==> full_reads(data, size).flatten() == data,
    decreases data.len(),
{
    if size > 0 && data.len() > 0 {
        let n = if size < data.len() {
            size as int
        } else {
            data.len() as int
        };
        lemma_memory_items_are_reads(data.skip(n), size, encoding);
        let reads = full_reads(data, size);
        assert(reads.drop_first() =~= full_reads(data.skip(n), size));
        assert(memory_items(data, size, encoding) =~= read_items(reads, encoding));
        assert(data =~= data.take(n) + data.skip(n));
    } else {
        assert(memory_items(data, size, encoding) =~= read_items(full_reads(data, size), encoding));
        if size > 0 {
            assert(full_reads(data, size).flatten() =~= data);
        }
    }
}

/// A read that is reported to the source that awaits it puts the chunk
/// of that read in front of the source.
pub proof fn lemma_fed_read(items: Seq<Item>, raw: Vec<u8>)
    requires
        awaits_read(items),
        raw@.len() > 0,
    ensures
        fed(items, Some(Ok(raw))) == read_items(seq![raw@], items[0]->encoding) + items,
{
    assert(read_items(seq![raw@], items[0]->encoding) =~= seq![
        Item::Chunk(transfer(items[0]->encoding, raw@)),
    ]);
}

/// A payload in memory has no outside source among its items.
pub proof fn lemma_memory_items_resolved(data: Seq<u8>, size: nat, encoding: Option<Encoding>)
    ensures
        resolved(memory_items(data, size, encoding)),
    decreases data.len(),
{
    if size > 0 && data.len() > 0 {
        let n = if size < data.len() {
            size as int
        } else {
            data.len() as int
        };
        lemma_memory_items_resolved(data.skip(n), size, encoding);
        let rest = memory_items(data.skip(n), size, encoding);
        let items = memory_items(data, size, encoding);
        assert forall|i: int| 0 <= i < items.len() implies (#[trigger] items[i]) is Chunk by {
            if i > 0 {
                assert(items[i] == rest[i - 1]);
            }
        }
    }
}

/// A payload that is read in one piece gives its encoding as one chunk,
/// under every encoding, and nothing where it is empty.
pub proof fn lemma_memory_items_whole(data: Seq<u8>, size: nat, encoding: Option<Encoding>)
    requires
        size >= data.len(),
    ensures
        memory_items(data, size, encoding) == if data.len() == 0 {
            Seq::<Item>::empty()
        } else {
            seq![Item::Chunk(transfer(encoding, data))]
        },
{
    if data.len() > 0 {
        let n = data.len() as int;
        assert(data.take(n) =~= data);
        assert(memory_items(data.skip(n), size, encoding) =~= Seq::<Item>::empty());
    }
}

/// Applies an optional encoding to `raw` in place.
fn transform(encoding: Option<Encoding>, raw: &mut Vec<u8>)
    requires
        encoding matches Some(e) ==> e.accepts(old(raw)@.len()),
    ensures
        final(raw)@ == transfer(encoding, old(raw)@),
{
    if let Some(e) = encoding {
        e.encode(raw);
    }
}

/// One payload on its way out: a byte source, the size of the reads
/// taken from it, the encoding applied to each read, and the encoded
/// bytes of the last read that a reader has not taken yet.
pub struct ReaderStream {
    reader: Payload,
    /// Bytes of an in-memory payload that were read.
    pos: usize,
    /// Whether an outside source may still deliver.
    open: bool,
    buf_size: usize,
    buf_buffer: Vec<u8>,
    /// Bytes of `buf_buffer` that were taken.
    buf_pos: usize,
    encoding: Option<Encoding>,
}

impl ReaderStream {
    /// Whether the positions lie within what they count, and the encoder
    /// can take the payload.
    pub closed spec fn wf(&self) -> bool {
        &&& self.buf_pos <= self.buf_buffer@.len()
        &&& self.reader matches Payload::Bytes(data) ==> self.pos <= data@.len()
        &&& self.reader.fits(self.encoding)
    }

    /// The encoded bytes that are buffered and not taken.
    pub closed spec fn buffered(&self) -> Seq<u8> {
        self.buf_buffer@.skip(self.buf_pos as int)
    }

    /// What the byte source has yet to give.
    closed spec fn unread(&self) -> Seq<Item> {
        match self.reader {
            Payload::Bytes(data) => memory_items(
                data@.skip(self.pos as int),
                self.buf_size as nat,
                self.encoding,
            ),
            Payload::Reader { key, .. } => if self.open && self.buf_size > 0 {
                seq![
                    Item::Source { key, max: self.buf_size as nat, encoding: self.encoding },
                ]
            } else {
                Seq::empty()
            },
        }
    }

    /// What is still to be delivered: the buffered bytes, then what the
    /// source has yet to give.
    pub closed spec fn items(&self) -> Seq<Item> {
        if self.buffered().len() > 0 {
            seq![Item::Chunk(self.buffered())] + self.unread()
        } else {
            self.unread()
        }
    }

    /// The size of the reads.
    pub closed spec fn spec_buf_size(&self) -> usize {
        self.buf_size
    }

    /// Buffered bytes are the first thing to be delivered.
    pub proof fn lemma_buffered_first(&self)
        ensures
            self.buffered().len() > 0 ==> self.items().len() > 0 && self.items()[0] == Item::Chunk(
                self.buffered(),
            ),
    {
    }

    /// A transform over `reader` with reads of `read_size(buf_size,
    /// encoding)` bytes.
    pub fn new(reader: Payload, buf_size: Option<usize>, encoding: Option<Encoding>) -> (r: Self)
        requires
            reader.fits(encoding),
        ensures
            r.wf(),
            r.spec_buf_size() == read_size(buf_size, encoding),
            r.buffered().len() == 0,
            r.items() == payload_items(reader, read_size(buf_size, encoding), encoding),
    {
        let mut buf_size: usize = match buf_size {
            Some(n) => n,
            None => CHUNK_SIZE,
        };
        if let Some(Encoding::Base64) = encoding {
            proof {
                lemma_round_to_three_fits(buf_size);
            }
            buf_size = nearest_multiple_of(buf_size, 3);
        }
        let r = ReaderStream {
            reader,
            pos: 0,
            open: true,
            buf_size,
            buf_buffer: Vec::new(),
            buf_pos: 0,
            encoding,
        };
        proof {
            if r.reader is Bytes {
                assert(r.reader->Bytes_0@.skip(0) =~= r.reader->Bytes_0@);
            }
        }
        r
    }

    /// A transform that delivers `bytes` as they are, in one chunk.
    pub fn once(bytes: Vec<u8>) -> (r: Self)
        requires
            bytes@.len() > 0,
        ensures
            r.wf(),
            r.buffered().len() == 0,
            r.items() == seq![Item::Chunk(bytes@)],
    {
        let size: usize = bytes.len();
        proof {
            lemma_memory_items_whole(bytes@, size as nat, None);
        }
        ReaderStream::new(Payload::Bytes(bytes), Some(size), None)
    }

    #[verifier::when_used_as_spec(spec_buf_size)]
    pub fn buf_size(&self) -> (n: usize)
        ensures
            n == self.spec_buf_size(),
    {
        self.buf_size
    }

    /// Whether nothing is left to deliver.
    pub fn is_terminated(&self) -> (done: bool)
        requires
            self.wf(),
        ensures
            done == (self.items().len() == 0),
    {
        if self.buf_pos < self.buf_buffer.len() {
            return false;
        }
        match &self.reader {
            Payload::Bytes(data) => self.buf_size == 0 || self.pos == data.len(),
            Payload::Reader { .. } => !self.open || self.buf_size == 0,
        }
    }

    /// The read that the next step asks for, if it asks for one: the key
    /// of the outside source and the number of bytes to read at most.
    pub fn awaited(&self) -> (read: Option<(usize, usize)>)
        requires
            self.wf(),
        ensures
            read == awaited(self.items()),
    {
        if self.buf_pos < self.buf_buffer.len() {
            return None;
        }
        match &self.reader {
            Payload::Bytes(_) => None,
            Payload::Reader { key, .. } => if self.open && self.buf_size > 0 {
                Some((*key, self.buf_size))
            } else {
                None
            },
        }
    }

    /// One step of the stream of chunks: a read of at most `buf_size`
    /// bytes is taken from the source and encoded by itself. An in-memory
    /// source is read here; for an outside source the step answers
    /// `Pending` until the read is reported in `cx`. Buffered bytes that a
    /// reader left behind go first.
    pub fn poll_next(&mut self, cx: Option<StreamChunk>) -> (r: Poll<Option<StreamChunk>>)
        requires
            old(self).wf(),
            admissible(old(self).items(), cx),
        ensures
            final(self).wf(),
            final(self).spec_buf_size() == old(self).spec_buf_size(),
            next_is(old(self).items(), cx, r, final(self).items()),
            r matches Poll::Ready(Some(Ok(_))) ==> final(self).buffered().len() == 0,
    {
        let held: usize = self.buf_buffer.len();
        if self.buf_pos < held {
            let out: Vec<u8> = slice_to_vec(
                slice_subrange(self.buf_buffer.as_slice(), self.buf_pos, held),
            );
            self.buf_pos = held;
            proof {
                assert(out@ =~= old(self).buffered());
                assert(old(self).items().skip(1) =~= old(self).unread());
            }
            return Poll::Ready(Some(Ok(out)));
        }
        match &self.reader {
            Payload::Bytes(data) => {
                let left: usize = data.len() - self.pos;
                let n: usize = if self.buf_size < left {
                    self.buf_size
                } else {
                    left
                };
                if n == 0 {
                    return Poll::Ready(None);
                }
                let mut raw: Vec<u8> = slice_to_vec(
                    slice_subrange(data.as_slice(), self.pos, self.pos + n),
                );
                proof {
                    let rest = data@.skip(self.pos as int);
                    assert(raw@ =~= rest.take(n as int));
                    assert(rest.skip(n as int) =~= data@.skip(self.pos + n));
                }
                self.pos = self.pos + n;
                transform(self.encoding, &mut raw);
                proof {
                    assert(old(self).items().skip(1) =~= self.unread());
                }
                Poll::Ready(Some(Ok(raw)))
            },
            Payload::Reader { .. } => {
                if !self.open || self.buf_size == 0 {
                    return Poll::Ready(None);
                }
                match cx {
                    None => Poll::Pending,
                    Some(Err(e)) => {
                        self.open = false;
                        Poll::Ready(Some(Err(e)))
                    },
                    Some(Ok(mut raw)) => {
                        if raw.len() == 0 {
                            self.open = false;
                            Poll::Ready(None)
                        } else {
                            transform(self.encoding, &mut raw);
                            proof {
                                let s = fed(old(self).items(), cx);
                                assert(s.skip(1) =~= old(self).items());
                            }
                            Poll::Ready(Some(Ok(raw)))
                        }
                    },
                }
            },
        }
    }

    /// Makes sure that bytes are buffered where any are left: while the
    /// buffer is empty, one read is taken, encoded and stored.
    pub fn poll_fill(&mut self, cx: Option<StreamChunk>) -> (r: Poll<Result<(), std::io::Error>>)
        requires
            old(self).wf(),
            admissible(old(self).items(), cx),
        ensures
            final(self).wf(),
            final(self).spec_buf_size() == old(self).spec_buf_size(),
            fill_is(
                old(self).items(),
                cx,
                match r {
                    Poll::Ready(Ok(_)) => Poll::Ready(Ok(final(self).buffered())),
                    Poll::Ready(Err(e)) => Poll::Ready(Err(e)),
                    Poll::Pending => Poll::Pending,
                },
                final(self).items(),
            ),
    {
        let ghost items0 = self.items();
        let ghost cx0 = cx;
        let mut report: Option<StreamChunk> = cx;
        loop
            invariant
                self.wf(),
                self.spec_buf_size() == old(self).spec_buf_size(),
                items0 == old(self).items(),
                cx0 == cx,
                admissible(self.items(), report),
                fails(self.items(), report) == fails(items0, cx0),
                fails(items0, cx0) ==> report == cx0,
                skip_empty(fed(self.items(), report)) =~= skip_empty(fed(items0, cx0)),
            decreases self.items().len() + (if report is Some { 1nat } else { 0nat }),
        {
            if self.buf_pos < self.buf_buffer.len() {
                proof {
                    self.lemma_buffered_first();
                }
                return Poll::Ready(Ok(()));
            }
            let ghost before = self.items();
            let ghost cx_before = report;
            match self.poll_next(report) {
                Poll::Pending => {
                    return Poll::Pending;
                },
                Poll::Ready(None) => {
                    return Poll::Ready(Ok(()));
                },
                Poll::Ready(Some(Err(e))) => {
                    return Poll::Ready(Err(e));
                },
                Poll::Ready(Some(Ok(chunk))) => {
                    proof {
                        let s = fed(before, cx_before);
                        assert(s.len() > 0 && s[0] == Item::Chunk(chunk@));
                        assert(self.items() =~= s.skip(1));
                    }
                    if chunk.len() > 0 {
                        self.buf_buffer = chunk;
                        self.buf_pos = 0;
                        proof {
                            let s = fed(before, cx_before);
                            assert(self.buffered() =~= chunk@);
                            assert(self.items() =~= s);
                        }
                        return Poll::Ready(Ok(()));
                    }
                    report = None;
                },
            }
        }
    }

    /// The buffered bytes that were not taken.
    pub fn buffer(&self) -> (b: &[u8])
        requires
            self.wf(),
        ensures
            b@ == self.buffered(),
    {
        slice_subrange(self.buf_buffer.as_slice(), self.buf_pos, self.buf_buffer.len())
    }

    /// Fills the buffer where it is empty and offers its bytes: no bytes
    /// when nothing is left.
    pub fn poll_fill_buf(&mut self, cx: Option<StreamChunk>) -> (r: Poll<
        Result<&[u8], std::io::Error>,
    >)
        requires
            old(self).wf(),
            admissible(old(self).items(), cx),
        ensures
            final(self).wf(),
            final(self).spec_buf_size() == old(self).spec_buf_size(),
            fill_is(old(self).items(), cx, offered(r), final(self).items()),
            r matches Poll::Ready(Ok(b)) ==> b@ == final(self).buffered(),
    {
        match self.poll_fill(cx) {
            Poll::Pending => Poll::Pending,
            Poll::Ready(Err(e)) => Poll::Ready(Err(e)),
            Poll::Ready(Ok(_)) => Poll::Ready(Ok(self.buffer())),
        }
    }

    /// Takes `amt` bytes from the front of the buffer.
    pub fn consume(&mut self, amt: usize)
        requires
            old(self).wf(),
            amt <= old(self).buffered().len(),
        ensures
            final(self).wf(),
            final(self).spec_buf_size() == old(self).spec_buf_size(),
            final(self).buffered() == old(self).buffered().skip(amt as int),
            final(self).items() == consumed(old(self).items(), amt as nat),
    {
        let held: usize = self.buf_buffer.len();
        self.buf_pos = self.buf_pos + amt;
        proof {
            assert(self.buffered() =~= old(self).buffered().skip(amt as int));
            if amt > 0 {
                assert(old(self).items().skip(1) =~= old(self).unread());
            }
        }
    }

    /// One read of at most `max` bytes: the buffer is filled where it is
    /// empty, and its first bytes are handed out and taken from it. No
    /// bytes for a `max` above zero means that none are left.
    pub fn poll_read(&mut self, cx: Option<StreamChunk>, max: usize) -> (r: Poll<StreamChunk>)
        requires
            old(self).wf(),
            admissible(old(self).items(), cx),
        ensures
            final(self).wf(),
            final(self).spec_buf_size() == old(self).spec_buf_size(),
            read_is(old(self).items(), cx, max as nat, r, final(self).items()),
    {
        match self.poll_fill(cx) {
            Poll::Pending => Poll::Pending,
            Poll::Ready(Err(e)) => Poll::Ready(Err(e)),
            Poll::Ready(Ok(_)) => {
                let held: &[u8] = self.buffer();
                let n: usize = if max < held.len() {
                    max
                } else {
                    held.len()
                };
                let out: Vec<u8> = slice_to_vec(slice_subrange(held, 0, n));
                proof {
                    assert(out@ =~= self.buffered().take(n as int));
                }
                self.consume(n);
                Poll::Ready(Ok(out))
            },
        }
    }
}

} // verus!
