//! What a body under way still has to deliver, as a sequence of items,
//! and the relations that every step of a stream or a reader keeps to it.
//!
//! Bytes that the encoder holds are known: they stand in the sequence as
//! chunks. Bytes of an outside source are not: the source stands there
//! once, and turns into chunks read by read, as its driver reports them.

use crate::encoding::{transfer, Encoding};
use vstd::prelude::*;

verus! {

/// The error of a failed read. It is passed through and never inspected.
#[verifier::external_type_specification]
#[verifier::external_body]
pub struct ExIoError(std::io::Error);

/// One chunk of a body, or the failure of the read that should have
/// given it.
pub type StreamChunk = Result<Vec<u8>, std::io::Error>;

/// The outcome of one step: a result, or the request to read from the
/// outside source and to take the step again with what was read.
#[derive(Debug)]
pub enum Poll<T> {
    Ready(T),
    Pending,
}

/// One element of what is still to be delivered.
pub enum Item {
    /// Bytes that are ready to leave as one chunk.
    Chunk(Seq<u8>),
    /// The outside source that its owner knows as `key`, read at most
    /// `max` bytes at a time.
    Source { key: usize, max: nat, encoding: Option<Encoding> },
}

/// The bytes that an item stands for; those of a source are not known.
pub open spec fn content(item: Item) -> Seq<u8> {
    match item {
        Item::Chunk(c) => c,
        Item::Source { .. } => Seq::empty(),
    }
}

/// Whether every item is a chunk.
pub open spec fn resolved(items: Seq<Item>) -> bool {
    forall|i: int| 0 <= i < items.len() ==> (#[trigger] items[i]) is Chunk
}

/// The chunks of a resolved sequence, one for one.
pub open spec fn chunks_of(items: Seq<Item>) -> Seq<Seq<u8>> {
    Seq::new(items.len(), |i: int| content(items[i]))
}

/// The contents of a row of chunks.
pub open spec fn views(chunks: Seq<Vec<u8>>) -> Seq<Seq<u8>> {
    Seq::new(chunks.len(), |i: int| chunks[i]@)
}

/// The bytes of a resolved sequence: its chunks, one after the other.
pub open spec fn bytes_of(items: Seq<Item>) -> Seq<u8>
    decreases items.len(),
{
    if items.len() == 0 {
        Seq::empty()
    } else {
        content(items[0]) + bytes_of(items.skip(1))
    }
}

/// Whether the sequence begins with an outside source.
pub open spec fn awaits_read(items: Seq<Item>) -> bool {
    items.len() > 0 && items[0] is Source
}

/// The read that a step on `items` asks for: the key of the source and
/// the number of bytes that the read may hold at most.
pub open spec fn awaited(items: Seq<Item>) -> Option<(usize, usize)> {
    if awaits_read(items) {
        Some((items[0]->key, items[0]->max as usize))
    } else {
        None
    }
}

/// Whether `cx` may be handed to a step on `items`. A read is reported
/// only to the source that asked for it, it holds no more bytes than were
/// asked for, and no more than the encoder takes at once.
pub open spec fn admissible(items: Seq<Item>, cx: Option<StreamChunk>) -> bool {
    cx matches Some(read) ==> awaits_read(items) && (read matches Ok(raw) ==> {
        &&& raw@.len() <= items[0]->max
        &&& items[0]->encoding matches Some(e) ==> e.accepts(raw@.len())
    })
}

/// Whether `cx` reports a failed read to a source that awaits one.
pub open spec fn fails(items: Seq<Item>, cx: Option<StreamChunk>) -> bool {
    awaits_read(items) && cx matches Some(Err(_))
}

/// The items after `cx` was reported. A read of no bytes ends the source.
/// Any other read puts its encoded form in front of the source, which
/// stays. A failed read ends everything.
pub open spec fn fed(items: Seq<Item>, cx: Option<StreamChunk>) -> Seq<Item> {
    if awaits_read(items) && cx is Some {
        match cx->0 {
            Err(_) => Seq::empty(),
            Ok(raw) => if raw@.len() == 0 {
                items.skip(1)
            } else {
                seq![Item::Chunk(transfer(items[0]->encoding, raw@))] + items
            },
        }
    } else {
        items
    }
}

/// The items without the empty chunks that they begin with.
pub open spec fn skip_empty(items: Seq<Item>) -> Seq<Item>
    decreases items.len(),
{
    if items.len() > 0 && items[0] is Chunk && content(items[0]).len() == 0 {
        skip_empty(items.skip(1))
    } else {
        items
    }
}

/// The items after `amt` bytes of the first chunk were taken.
pub open spec fn consumed(items: Seq<Item>, amt: nat) -> Seq<Item> {
    if amt == 0 || items.len() == 0 {
        items
    } else if amt < content(items[0]).len() {
        seq![Item::Chunk(content(items[0]).skip(amt as int))] + items.skip(1)
    } else {
        items.skip(1)
    }
}

/// One step of a stream. From `items` and the report `cx` it gave `r`
/// and left `after`: a failed read is passed on and ends the stream; the
/// first chunk leaves whole; a source that has nothing yet asks for a
/// read; nothing left is the end.
pub open spec fn next_is(
    items: Seq<Item>,
    cx: Option<StreamChunk>,
    r: Poll<Option<StreamChunk>>,
    after: Seq<Item>,
) -> bool {
    let s = fed(items, cx);
    if fails(items, cx) {
        r == Poll::Ready(Some(cx->0)) && after =~= s
    } else if s.len() == 0 {
        r == Poll::<Option<StreamChunk>>::Ready(None) && after =~= s
    } else {
        match s[0] {
            Item::Chunk(c) => r matches Poll::Ready(Some(Ok(v))) && v@ == c && after =~= s.skip(1),
            Item::Source { .. } => r is Pending && after =~= s,
        }
    }
}

/// The bytes that a filling of the buffer offered, as plain values.
pub open spec fn offered(r: Poll<Result<&[u8], std::io::Error>>) -> Poll<
    Result<Seq<u8>, std::io::Error>,
> {
    match r {
        Poll::Ready(Ok(b)) => Poll::Ready(Ok(b@)),
        Poll::Ready(Err(e)) => Poll::Ready(Err(e)),
        Poll::Pending => Poll::Pending,
    }
}

/// One filling of a reader's buffer. From `items` and the report `cx` it
/// gave `r` and left `after`: empty chunks are passed over, the first
/// chunk that holds bytes is offered and stays, a source that has nothing
/// yet asks for a read, and no bytes offered means that none are left.
pub open spec fn fill_is(
    items: Seq<Item>,
    cx: Option<StreamChunk>,
    r: Poll<Result<Seq<u8>, std::io::Error>>,
    after: Seq<Item>,
) -> bool {
    let s = skip_empty(fed(items, cx));
    if fails(items, cx) {
        cx->0 matches Err(e) && r == Poll::<Result<Seq<u8>, std::io::Error>>::Ready(Err(e))
            && after =~= s
    } else if s.len() == 0 {
        r matches Poll::Ready(Ok(b)) && b.len() == 0 && after =~= s
    } else {
        match s[0] {
            Item::Chunk(c) => r matches Poll::Ready(Ok(b)) && b == c && after =~= s,
            Item::Source { .. } => r is Pending && after =~= s,
        }
    }
}

/// One read of at most `max` bytes. As a filling of the buffer, but the
/// bytes offered are taken, as many as `max` allows.
pub open spec fn read_is(
    items: Seq<Item>,
    cx: Option<StreamChunk>,
    max: nat,
    r: Poll<StreamChunk>,
    after: Seq<Item>,
) -> bool {
    let s = skip_empty(fed(items, cx));
    if fails(items, cx) {
        r == Poll::Ready(cx->0) && after =~= s
    } else if s.len() == 0 {
        r matches Poll::Ready(Ok(v)) && v@.len() == 0 && after =~= s
    } else {
        match s[0] {
            Item::Chunk(c) => {
                let n = if max < c.len() {
                    max
                } else {
                    c.len()
                };
                r matches Poll::Ready(Ok(v)) && v@ == c.take(n as int) && after =~= consumed(s, n)
            },
            Item::Source { .. } => r is Pending && after =~= s,
        }
    }
}

/// The stream and the reader are two faces of one delivery. Taken on the
/// same items with the same report, a read asks for a read of the source
/// where a step of the stream does, passes on the failure that the step
/// passes on, finds nothing left where the step finds nothing left, and
/// where the step hands out a chunk for which the read has room, hands
/// out the bytes of that chunk; and both leave the same items.
pub proof fn lemma_read_follows_next(
    items: Seq<Item>,
    cx: Option<StreamChunk>,
    max: nat,
    step: Poll<Option<StreamChunk>>,
    after_step: Seq<Item>,
    read: Poll<StreamChunk>,
    after_read: Seq<Item>,
)
    requires
        next_is(items, cx, step, after_step),
        read_is(items, cx, max, read, after_read),
    ensures
        step is Pending ==> read is Pending && after_read == after_step,
        step matches Poll::Ready(Some(Err(e))) ==> read == Poll::<StreamChunk>::Ready(Err(e))
            && after_read == after_step,
        step == Poll::<Option<StreamChunk>>::Ready(None) ==> (read matches Poll::Ready(Ok(v))
            && v@.len() == 0) && after_read == after_step,
        step matches Poll::Ready(Some(Ok(chunk))) ==> 0 < chunk@.len() <= max ==> (
        read matches Poll::Ready(Ok(v)) && v@ == chunk@) && after_read == after_step,
{
    let s = fed(items, cx);
    if !fails(items, cx) && s.len() > 0 {
        match s[0] {
            Item::Chunk(c) => {
                if 0 < c.len() <= max {
                    assert(c.take(c.len() as int) =~= c);
                }
            },
            Item::Source { .. } => {},
        }
    }
}

/// The bytes of two sequences in a row are the bytes of the first followed
/// by the bytes of the second.
pub proof fn lemma_bytes_of_concat(a: Seq<Item>, b: Seq<Item>)
    ensures
        bytes_of(a + b) == bytes_of(a) + bytes_of(b),
    decreases a.len(),
{
    if a.len() == 0 {
        assert(a + b =~= b);
    } else {
        assert((a + b).skip(1) =~= a.skip(1) + b);
        lemma_bytes_of_concat(a.skip(1), b);
    }
}

/// Empty chunks carry no bytes.
pub proof fn lemma_bytes_of_skip_empty(items: Seq<Item>)
    ensures
        bytes_of(skip_empty(items)) == bytes_of(items),
    decreases items.len(),
{
    if items.len() > 0 && items[0] is Chunk && content(items[0]).len() == 0 {
        lemma_bytes_of_skip_empty(items.skip(1));
    }
}

/// Taking bytes from the first chunk takes them from the front of the
/// whole.
pub proof fn lemma_bytes_of_consumed(items: Seq<Item>, amt: nat)
    requires
        items.len() > 0,
        amt <= content(items[0]).len(),
    ensures
        bytes_of(items) == content(items[0]).take(amt as int) + bytes_of(consumed(items, amt)),
{
    let c = content(items[0]);
    if amt == 0 {
    } else if amt < c.len() {
        let rest = seq![Item::Chunk(c.skip(amt as int))] + items.skip(1);
        assert(rest.skip(1) =~= items.skip(1));
        assert(c =~= c.take(amt as int) + c.skip(amt as int));
    } else {
        assert(c.take(amt as int) =~= c);
    }
}

/// What a stream hands out chunk by chunk and what a reader hands out
/// byte by byte are the same bytes: the chunks of a resolved sequence,
/// laid end to end, are its bytes.
pub proof fn lemma_chunks_flatten(items: Seq<Item>)
    ensures
        chunks_of(items).flatten() == bytes_of(items),
    decreases items.len(),
{
    if items.len() > 0 {
        assert(chunks_of(items).drop_first() =~= chunks_of(items.skip(1)));
        lemma_chunks_flatten(items.skip(1));
    }
}

/// A sequence stays resolved when items leave its front.
pub proof fn lemma_resolved_skip(items: Seq<Item>, n: int)
    requires
        resolved(items),
        0 <= n <= items.len(),
    ensures
        resolved(items.skip(n)),
{
    let rest = items.skip(n);
    assert forall|i: int| 0 <= i < rest.len() implies (#[trigger] rest[i]) is Chunk by {
        assert(items[i + n] is Chunk);
    }
}

} // verus!
