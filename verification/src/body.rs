//! A body on its way out: segments in a row, each of them a payload of
//! its own, delivered as a stream of chunks or through a reader's buffer.

use crate::reader_stream::ReaderStream;
use crate::stream::{
    admissible, awaited, bytes_of, chunks_of, consumed, content, fails, fed, fill_is,
    lemma_bytes_of_consumed, lemma_bytes_of_skip_empty, lemma_resolved_skip, next_is, offered,
    read_is, resolved, skip_empty, views, Item, Poll, StreamChunk,
};
use vstd::prelude::*;
use vstd::slice::{slice_subrange, slice_to_vec};

verus! {

/// What the segments from `from` on have to deliver, one segment after
/// the other.
pub open spec fn joined(segments: Seq<ReaderStream>, from: int) -> Seq<Item>
    decreases segments.len() - from,
{
    if 0 <= from < segments.len() {
        segments[from].items() + joined(segments, from + 1)
    } else {
        Seq::empty()
    }
}

/// A segment at the end adds its items at the end.
proof fn lemma_joined_push(segments: Seq<ReaderStream>, from: int, last: ReaderStream)
    requires
        0 <= from <= segments.len(),
    ensures
        joined(segments.push(last), from) =~= joined(segments, from) + last.items(),
    decreases segments.len() - from,
{
    let longer = segments.push(last);
    if from < segments.len() {
        lemma_joined_push(segments, from + 1, last);
        assert(longer[from] == segments[from]);
    } else {
        assert(joined(longer, from + 1) =~= Seq::<Item>::empty());
    }
}

/// A change in the segment at `at` shows in the items as a change of that
/// segment's share, and nowhere else.
proof fn lemma_joined_update(
    before: Seq<ReaderStream>,
    after: Seq<ReaderStream>,
    at: int,
    from: int,
)
    requires
        before.len() == after.len(),
        0 <= from <= before.len(),
        forall|i: int| 0 <= i < before.len() && i != at ==> before[i] == after[i],
    ensures
        at < from ==> joined(after, from) == joined(before, from),
    decreases before.len() - from,
{
    if from < before.len() {
        lemma_joined_update(before, after, at, from + 1);
    }
}

/// Skipping empty chunks never adds an item.
proof fn lemma_skip_empty_len(items: Seq<Item>)
    ensures
        skip_empty(items).len() <= items.len(),
        skip_empty(items).len() > 0 ==> !(skip_empty(items)[0] is Chunk && content(
            skip_empty(items)[0],
        ).len() == 0),
    decreases items.len(),
{
    if items.len() > 0 && items[0] is Chunk && content(items[0]).len() == 0 {
        lemma_skip_empty_len(items.skip(1));
    }
}

/// Skipping empty chunks at the front of two sequences in a row stops in
/// the first where that holds anything else, and goes on into the second
/// where it does not.
proof fn lemma_skip_empty_concat(a: Seq<Item>, b: Seq<Item>)
    ensures
        skip_empty(a + b) =~= if skip_empty(a).len() > 0 {
            skip_empty(a) + b
        } else {
            skip_empty(b)
        },
    decreases a.len(),
{
    if a.len() == 0 {
        assert(a + b =~= b);
    } else if a[0] is Chunk && content(a[0]).len() == 0 {
        assert((a + b).skip(1) =~= a.skip(1) + b);
        lemma_skip_empty_concat(a.skip(1), b);
    }
}

/// A report to the first of two sequences in a row leaves the second as
/// it is.
proof fn lemma_fed_concat(a: Seq<Item>, b: Seq<Item>, cx: Option<StreamChunk>)
    requires
        a.len() > 0,
        !fails(a, cx),
    ensures
        fed(a + b, cx) =~= fed(a, cx) + b,
        fails(a + b, cx) == fails(a, cx),
        admissible(a + b, cx) == admissible(a, cx),
{
    assert((a + b)[0] == a[0]);
    assert((a + b).skip(1) =~= a.skip(1) + b);
}

/// A body: segments that are delivered one after the other.
pub struct Body {
    segments: Vec<ReaderStream>,
    /// The segment that delivers next.
    index: usize,
}

impl Body {
    /// Whether the segment that delivers next is one of the segments, or
    /// none is left; every segment is well formed; and no segment behind
    /// the one that delivers next holds buffered bytes.
    closed spec fn sound(&self) -> bool {
        &&& self.index <= self.segments@.len()
        &&& forall|i: int| 0 <= i < self.segments@.len() ==> (#[trigger] self.segments@[i]).wf()
        &&& forall|i: int|
            self.index < i < self.segments@.len() ==> (#[trigger] self.segments@[
                i
            ]).buffered().len() == 0
    }

    /// Whether the segment that delivers next has something to deliver,
    /// unless none has.
    closed spec fn settled(&self) -> bool {
        self.index < self.segments@.len() ==> self.segments@[self.index as int].items().len() > 0
    }

    /// Whether the body is well formed: its segments are, and the one
    /// that delivers next has something to deliver.
    pub closed spec fn wf(&self) -> bool {
        self.sound() && self.settled()
    }

    /// What is still to be delivered.
    pub closed spec fn items(&self) -> Seq<Item> {
        joined(self.segments@, self.index as int)
    }

    /// The bytes that a reader finds buffered.
    pub closed spec fn buffered(&self) -> Seq<u8> {
        if self.index < self.segments@.len() {
            self.segments@[self.index as int].buffered()
        } else {
            Seq::empty()
        }
    }

    /// Buffered bytes are the first thing to be delivered.
    pub proof fn lemma_buffered_first(&self)
        ensures
            self.buffered().len() > 0 ==> self.items().len() > 0 && self.items()[0] == Item::Chunk(
                self.buffered(),
            ),
    {
        if self.index < self.segments@.len() {
            self.segments@[self.index as int].lemma_buffered_first();
        }
    }

    /// The items are those of the segment that delivers next, and then
    /// those of the segments behind it.
    proof fn lemma_first_segment(&self)
        requires
            self.index < self.segments@.len(),
        ensures
            self.items() =~= self.segments@[self.index as int].items() + joined(
                self.segments@,
                self.index as int + 1,
            ),
    {
    }

    /// A body with nothing to deliver.
    pub fn new() -> (body: Self)
        ensures
            body.wf(),
            body.items() == Seq::<Item>::empty(),
            body.buffered().len() == 0,
    {
        Body { segments: Vec::new(), index: 0 }
    }

    /// Puts `segment`, of which nothing was taken yet, behind what the
    /// body holds.
    pub fn append(&mut self, segment: ReaderStream)
        requires
            old(self).wf(),
            segment.wf(),
            segment.buffered().len() == 0,
        ensures
            final(self).wf(),
            final(self).items() == old(self).items() + segment.items(),
            final(self).buffered() == old(self).buffered(),
    {
        proof {
            lemma_joined_push(self.segments@, self.index as int, segment);
        }
        self.segments.push(segment);
        self.settle();
    }

    /// Passes over the segments that have nothing left.
    fn settle(&mut self)
        requires
            old(self).sound(),
        ensures
            final(self).wf(),
            final(self).items() == old(self).items(),
            final(self).buffered() == old(self).buffered(),
    {
        while self.index < self.segments.len() && self.segments[self.index].is_terminated()
            invariant
                self.sound(),
                self.items() == old(self).items(),
                self.buffered() == old(self).buffered(),
                self.segments == old(self).segments,
            decreases self.segments@.len() - self.index,
        {
            proof {
                self.lemma_first_segment();
                self.segments@[self.index as int].lemma_buffered_first();
            }
            self.index = self.index + 1;
        }
    }

    /// Whether nothing is left to deliver.
    pub fn is_terminated(&self) -> (done: bool)
        requires
            self.wf(),
        ensures
            done == (self.items().len() == 0),
    {
        proof {
            if self.index < self.segments@.len() {
                self.lemma_first_segment();
            }
        }
        self.index >= self.segments.len()
    }

    /// The read that the next step asks for, if it asks for one: the key
    /// of the outside source and the number of bytes to read at most.
    pub fn awaited(&self) -> (read: Option<(usize, usize)>)
        requires
            self.wf(),
        ensures
            read == awaited(self.items()),
    {
        if self.index < self.segments.len() {
            proof {
                self.lemma_first_segment();
            }
            self.segments[self.index].awaited()
        } else {
            None
        }
    }

    /// One step of the stream of chunks: the next chunk of the first
    /// segment that has one. `Pending` asks for a read of the outside
    /// source that stands first, of as many bytes as it names; the step is
    /// then taken again with the outcome of that read in `cx`.
    pub fn poll_next(&mut self, cx: Option<StreamChunk>) -> (r: Poll<Option<StreamChunk>>)
        requires
            old(self).wf(),
            admissible(old(self).items(), cx),
        ensures
            final(self).wf(),
            next_is(old(self).items(), cx, r, final(self).items()),
    {
        let ghost items0 = self.items();
        let mut report: Option<StreamChunk> = cx;
        loop
            invariant
                self.sound(),
                items0 == old(self).items(),
                report == cx || report is None,
                report is Some ==> self.items() == items0 && self.settled(),
                report is None ==> self.items() =~= fed(items0, cx) && !fails(items0, cx),
                admissible(items0, cx),
            decreases self.segments@.len() - self.index,
        {
            let n: usize = self.segments.len();
            if self.index >= n {
                return Poll::Ready(None);
            }
            let i: usize = self.index;
            let ghost before = self.segments@;
            let ghost a = before[i as int].items();
            let ghost b = joined(before, i + 1);
            proof {
                assert(self.items() =~= a + b);
                if a.len() > 0 {
                    if fails(a, report) {
                        assert((a + b)[0] == a[0]);
                    } else {
                        lemma_fed_concat(a, b, report);
                    }
                }
            }
            let r = self.segments[i].poll_next(report);
            proof {
                lemma_joined_update(before, self.segments@, i as int, i + 1);
                assert(self.items() =~= self.segments@[i as int].items() + b);
            }
            match r {
                Poll::Ready(None) => {
                    proof {
                        self.segments@[i as int].lemma_buffered_first();
                    }
                    self.index = i + 1;
                    report = None;
                },
                Poll::Ready(Some(Err(e))) => {
                    self.index = n;
                    return Poll::Ready(Some(Err(e)));
                },
                Poll::Ready(Some(Ok(chunk))) => {
                    proof {
                        let s = fed(a, report);
                        assert((s + b).skip(1) =~= s.skip(1) + b);
                    }
                    self.settle();
                    return Poll::Ready(Some(Ok(chunk)));
                },
                Poll::Pending => {
                    return Poll::Pending;
                },
            }
        }
    }

    /// Makes sure that bytes are buffered where any are left.
    pub fn poll_fill(&mut self, cx: Option<StreamChunk>) -> (r: Poll<Result<(), std::io::Error>>)
        requires
            old(self).wf(),
            admissible(old(self).items(), cx),
        ensures
            final(self).wf(),
            fill_is(
                old(self).items(),
                cx,
                match r {
                    Poll::Ready(Ok(_)) => Poll::Ready(Ok(final(self).buffered())),
                    Poll::Ready(Err(e)) => Poll::Ready(Err(e)),
                    Poll::Pending => Poll::Pending,
                },
                final(self).items(),
            ),
    {
        let ghost items0 = self.items();
        let mut report: Option<StreamChunk> = cx;
        loop
            invariant
                self.sound(),
                items0 == old(self).items(),
                report == cx || report is None,
                report is Some ==> self.items() == items0 && self.settled(),
                report is None ==> skip_empty(self.items()) =~= skip_empty(fed(items0, cx))
                    && !fails(items0, cx),
                admissible(items0, cx),
            decreases self.segments@.len() - self.index,
        {
            let n: usize = self.segments.len();
            if self.index >= n {
                return Poll::Ready(Ok(()));
            }
            let i: usize = self.index;
            let ghost before = self.segments@;
            let ghost a = before[i as int].items();
            let ghost b = joined(before, i + 1);
            proof {
                assert(self.items() =~= a + b);
                if a.len() > 0 {
                    if fails(a, report) {
                        assert((a + b)[0] == a[0]);
                    } else {
                        lemma_fed_concat(a, b, report);
                    }
                }
                lemma_skip_empty_concat(fed(a, report), b);
            }
            let r = self.segments[i].poll_fill(report);
            proof {
                lemma_joined_update(before, self.segments@, i as int, i + 1);
                assert(self.items() =~= self.segments@[i as int].items() + b);
                lemma_skip_empty_len(fed(a, report));
                self.segments@[i as int].lemma_buffered_first();
            }
            match r {
                Poll::Ready(Err(e)) => {
                    self.index = n;
                    return Poll::Ready(Err(e));
                },
                Poll::Pending => {
                    return Poll::Pending;
                },
                Poll::Ready(Ok(_)) => {
                    if self.segments[i].buffer().len() > 0 {
                        return Poll::Ready(Ok(()));
                    }
                    self.index = i + 1;
                    report = None;
                },
            }
        }
    }

    /// The buffered bytes that were not taken.
    pub fn buffer(&self) -> (b: &[u8])
        requires
            self.wf(),
        ensures
            b@ == self.buffered(),
    {
        if self.index < self.segments.len() {
            self.segments[self.index].buffer()
        } else {
            proof {
                reveal_strlit("");
            }
            "".as_bytes()
        }
    }

    /// Fills the buffer where it is empty and offers its bytes: no bytes
    /// when nothing is left.
    pub fn poll_fill_buf(&mut self, cx: Option<StreamChunk>) -> (r: Poll<
        Result<&[u8], std::io::Error>,
    >)
        requires
            old(self).wf(),
            admissible(old(self).items(), cx),
        ensures
            final(self).wf(),
            fill_is(old(self).items(), cx, offered(r), final(self).items()),
            r matches Poll::Ready(Ok(b)) ==> b@ == final(self).buffered(),
    {
        match self.poll_fill(cx) {
            Poll::Pending => Poll::Pending,
            Poll::Ready(Err(e)) => Poll::Ready(Err(e)),
            Poll::Ready(Ok(_)) => Poll::Ready(Ok(self.buffer())),
        }
    }

    /// Takes `amt` bytes from the front of the buffer.
    pub fn consume(&mut self, amt: usize)
        requires
            old(self).wf(),
            amt <= old(self).buffered().len(),
        ensures
            final(self).wf(),
            final(self).buffered() == old(self).buffered().skip(amt as int),
            final(self).items() == consumed(old(self).items(), amt as nat),
    {
        if self.index < self.segments.len() {
            let i: usize = self.index;
            let ghost before = self.segments@;
            let ghost a = before[i as int].items();
            let ghost b = joined(before, i + 1);
            proof {
                assert(self.items() =~= a + b);
                before[i as int].lemma_buffered_first();
            }
            self.segments[i].consume(amt);
            proof {
                lemma_joined_update(before, self.segments@, i as int, i + 1);
                assert(self.items() =~= self.segments@[i as int].items() + b);
                if amt > 0 {
                    assert((a + b).skip(1) =~= a.skip(1) + b);
                }
            }
            self.settle();
        }
    }

    /// One read of at most `max` bytes: the buffer is filled where it is
    /// empty, and its first bytes are handed out and taken from it. No
    /// bytes for a `max` above zero means that none are left.
    pub fn poll_read(&mut self, cx: Option<StreamChunk>, max: usize) -> (r: Poll<StreamChunk>)
        requires
            old(self).wf(),
            admissible(old(self).items(), cx),
        ensures
            final(self).wf(),
            read_is(old(self).items(), cx, max as nat, r, final(self).items()),
    {
        match self.poll_fill(cx) {
            Poll::Pending => Poll::Pending,
            Poll::Ready(Err(e)) => Poll::Ready(Err(e)),
            Poll::Ready(Ok(_)) => {
                let held: &[u8] = self.buffer();
                let n: usize = if max < held.len() {
                    max
                } else {
                    held.len()
                };
                let out: Vec<u8> = slice_to_vec(slice_subrange(held, 0, n));
                proof {
                    assert(out@ =~= self.buffered().take(n as int));
                    self.lemma_buffered_first();
                }
                self.consume(n);
                Poll::Ready(Ok(out))
            },
        }
    }

    /// All the chunks of a body that holds its bytes in memory.
    pub fn collect(self) -> (chunks: Vec<Vec<u8>>)
        requires
            self.wf(),
            resolved(self.items()),
        ensures
            views(chunks@) == chunks_of(self.items()),
    {
        let mut body: Body = self;
        let mut chunks: Vec<Vec<u8>> = Vec::new();
        loop
            invariant
                body.wf(),
                resolved(body.items()),
                views(chunks@) + chunks_of(body.items()) =~= chunks_of(self.items()),
            decreases body.items().len(),
        {
            let ghost before = body.items();
            let ghost sofar = views(chunks@);
            match body.poll_next(None) {
                Poll::Ready(Some(Ok(chunk))) => {
                    proof {
                        lemma_resolved_skip(before, 1);
                        assert(chunks_of(before) =~= seq![chunk@] + chunks_of(before.skip(1)));
                    }
                    chunks.push(chunk);
                    proof {
                        assert(views(chunks@) =~= sofar.push(chunk@));
                    }
                },
                _ => {
                    proof {
                        assert(before.len() > 0 ==> before[0] is Chunk);
                        assert(views(chunks@) =~= chunks_of(self.items()));
                    }
                    return chunks;
                },
            }
        }
    }

    /// All the bytes of a body that holds its bytes in memory, taken
    /// through the reader's buffer in reads of at most `max` bytes.
    pub fn read_to_end(self, max: usize) -> (bytes: Vec<u8>)
        requires
            self.wf(),
            resolved(self.items()),
            max > 0,
        ensures
            bytes@ == bytes_of(self.items()),
    {
        let mut body: Body = self;
        let mut bytes: Vec<u8> = Vec::new();
        loop
            invariant
                body.wf(),
                resolved(body.items()),
                max > 0,
                bytes@ + bytes_of(body.items()) =~= bytes_of(self.items()),
            decreases bytes_of(body.items()).len() + body.items().len(),
        {
            let ghost before = body.items();
            let ghost s = skip_empty(before);
            proof {
                lemma_bytes_of_skip_empty(before);
                lemma_skip_empty_len(before);
                lemma_resolved_skip_empty(before);
            }
            match body.poll_read(None, max) {
                Poll::Ready(Ok(mut part)) => {
                    if part.len() == 0 {
                        proof {
                            assert(s.len() == 0);
                        }
                        return bytes;
                    }
                    proof {
                        lemma_bytes_of_consumed(s, part@.len());
                        lemma_resolved_consumed(s, part@.len());
                    }
                    bytes.append(&mut part);
                },
                _ => {
                    proof {
                        assert(s.len() > 0 ==> s[0] is Chunk);
                    }
                    return bytes;
                },
            }
        }
    }
}

/// A resolved sequence stays resolved when its empty chunks are skipped.
proof fn lemma_resolved_skip_empty(items: Seq<Item>)
    requires
        resolved(items),
    ensures
        resolved(skip_empty(items)),
    decreases items.len(),
{
    if items.len() > 0 && items[0] is Chunk && content(items[0]).len() == 0 {
        lemma_resolved_skip(items, 1);
        lemma_resolved_skip_empty(items.skip(1));
    }
}

/// A resolved sequence stays resolved when bytes of its first chunk are
/// taken.
proof fn lemma_resolved_consumed(items: Seq<Item>, amt: nat)
    requires
        resolved(items),
    ensures
        resolved(consumed(items, amt)),
{
    if amt > 0 && items.len() > 0 {
        lemma_resolved_skip(items, 1);
        let rest = items.skip(1);
        let cut = seq![Item::Chunk(content(items[0]).skip(amt as int))] + rest;
        assert forall|i: int| 0 <= i < cut.len() implies (#[trigger] cut[i]) is Chunk by {
            if i > 0 {
                assert(cut[i] == rest[i - 1]);
            }
        }
    }
}

} // verus!
