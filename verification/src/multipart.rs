//! The form: a boundary and the parts in the order in which they were
//! added, and the three renderings of both.

use crate::body::Body;
use crate::content_type::{media_type_essence, parse_content_type, Error};
use crate::encoding::Encoding;
use crate::generate_boundary;
use crate::is_alphanumeric;
use crate::part::{byte_len, checked_sum, crlf, lemma_fixed_texts, put, Part};
use crate::reader_stream::{Payload, ReaderStream};
use crate::stream::{
    bytes_of, chunks_of, lemma_bytes_of_concat, lemma_chunks_flatten, resolved, Item,
};
use vstd::prelude::*;
use vstd::slice::slice_to_vec;
use vstd::string::StringExecFns;
use vstd::utf8::{encode_utf8, is_ascii_chars, is_ascii_chars_encode_utf8};

verus! {

/// The two hyphens that open a boundary line, and close the last one.
pub open spec fn dashes() -> Seq<u8> {
    encode_utf8("--"@)
}

/// The line that stands before a part: `--`, the boundary, `\r\n`.
pub open spec fn delimiter(boundary: Seq<char>) -> Seq<u8> {
    dashes() + encode_utf8(boundary) + crlf()
}

/// The line that ends the body: `--`, the boundary, `--`, `\r\n`.
pub open spec fn closing(boundary: Seq<char>) -> Seq<u8> {
    dashes() + encode_utf8(boundary) + dashes() + crlf()
}

/// What a stream puts between two parts: the end of the line of the
/// first, and the line that stands before the second.
pub open spec fn separator(boundary: Seq<char>) -> Seq<u8> {
    crlf() + delimiter(boundary)
}

/// What a stream puts behind the last part: the end of its line, and the
/// line that ends the body.
pub open spec fn tail(boundary: Seq<char>) -> Seq<u8> {
    crlf() + closing(boundary)
}

/// The bytes of the first `k` parts, each behind its boundary line and
/// with the end of its own line.
pub open spec fn rendered_parts(boundary: Seq<char>, parts: Seq<Part>, k: int) -> Seq<u8>
    decreases k,
{
    if k <= 0 {
        Seq::empty()
    } else {
        rendered_parts(boundary, parts, k - 1) + delimiter(boundary) + parts[k - 1].rendered()
            + crlf()
    }
}

/// What a stream delivers up to and with the `k`-th part, for `k` above
/// zero: the opening boundary line, and the parts with a separator
/// between each two.
pub open spec fn streamed_parts(
    boundary: Seq<char>,
    parts: Seq<Part>,
    k: int,
    buf_size: Option<usize>,
) -> Seq<Item>
    decreases k,
{
    if k <= 0 {
        Seq::empty()
    } else if k == 1 {
        seq![Item::Chunk(delimiter(boundary))] + parts[0].items(buf_size)
    } else {
        streamed_parts(boundary, parts, k - 1, buf_size) + seq![
            Item::Chunk(separator(boundary)),
        ] + parts[k - 1].items(buf_size)
    }
}

/// The sum of the lengths of the first `k` parts on the wire, each with
/// its boundary line and the end of its own line: `None` where the length
/// of a payload among them is not known.
pub open spec fn hinted_parts(boundary: Seq<char>, parts: Seq<Part>, k: int) -> Option<nat>
    decreases k,
{
    if k <= 0 {
        Some(0)
    } else {
        match (hinted_parts(boundary, parts, k - 1), parts[k - 1].spec_size_hint()) {
            (Some(before), Some(part)) => Some(
                before + delimiter(boundary).len() + part + crlf().len(),
            ),
            _ => None,
        }
    }
}

/// The lengths of the boundary lines.
pub proof fn lemma_boundary_lines(boundary: Seq<char>)
    ensures
        delimiter(boundary).len() == encode_utf8(boundary).len() + 4,
        closing(boundary).len() == encode_utf8(boundary).len() + 6,
        separator(boundary).len() == encode_utf8(boundary).len() + 6,
        tail(boundary).len() == encode_utf8(boundary).len() + 8,
{
    lemma_fixed_texts();
    reveal_strlit("--");
    assert(is_ascii_chars("--"@));
    is_ascii_chars_encode_utf8("--"@);
}

/// Where the length of every payload among the first `k` parts is
/// known, so is their sum.
pub proof fn lemma_hinted_known(boundary: Seq<char>, parts: Seq<Part>, k: int)
    requires
        0 <= k <= parts.len(),
        forall|j: int| 0 <= j < k ==> (#[trigger] parts[j]).data.spec_len() is Some,
    ensures
        hinted_parts(boundary, parts, k) is Some,
    decreases k,
{
    if k > 0 {
        lemma_hinted_known(boundary, parts, k - 1);
        assert(parts[k - 1].data.spec_len() is Some);
    }
}

/// One payload of unknown length leaves the sum unknown.
pub proof fn lemma_hinted_unknown(boundary: Seq<char>, parts: Seq<Part>, k: int, j: int)
    requires
        0 <= j < k <= parts.len(),
        parts[j].data.spec_len() is None,
    ensures
        hinted_parts(boundary, parts, k) is None,
    decreases k,
{
    if j < k - 1 {
        lemma_hinted_unknown(boundary, parts, k - 1, j);
    }
}

/// The sum over fewer parts is known where the sum over more is, and no
/// greater.
pub proof fn lemma_hinted_grows(boundary: Seq<char>, parts: Seq<Part>, k: int, n: int)
    requires
        0 <= k <= n <= parts.len(),
        hinted_parts(boundary, parts, n) is Some,
    ensures
        hinted_parts(boundary, parts, k) is Some,
        hinted_parts(boundary, parts, k)->0 <= hinted_parts(boundary, parts, n)->0,
    decreases n - k,
{
    if k < n {
        lemma_hinted_grows(boundary, parts, k, n - 1);
    }
}

/// The line that stands before a part.
fn delimiter_bytes(boundary: &str) -> (line: Vec<u8>)
    ensures
        line@ == delimiter(boundary@),
{
    let mut line: Vec<u8> = Vec::new();
    put(&mut line, "--");
    put(&mut line, boundary);
    put(&mut line, "\r\n");
    assert(line@ =~= delimiter(boundary@));
    line
}

/// The line that ends the body.
fn closing_bytes(boundary: &str) -> (line: Vec<u8>)
    ensures
        line@ == closing(boundary@),
{
    let mut line: Vec<u8> = Vec::new();
    put(&mut line, "--");
    put(&mut line, boundary);
    put(&mut line, "--");
    put(&mut line, "\r\n");
    assert(line@ =~= closing(boundary@));
    line
}

/// What a stream puts between two parts.
fn separator_bytes(boundary: &str) -> (line: Vec<u8>)
    ensures
        line@ == separator(boundary@),
{
    let mut line: Vec<u8> = Vec::new();
    put(&mut line, "\r\n");
    put(&mut line, "--");
    put(&mut line, boundary);
    put(&mut line, "\r\n");
    assert(line@ =~= separator(boundary@));
    line
}

/// What a stream puts behind the last part.
fn tail_bytes(boundary: &str) -> (line: Vec<u8>)
    ensures
        line@ == tail(boundary@),
{
    let mut line: Vec<u8> = Vec::new();
    put(&mut line, "\r\n");
    put(&mut line, "--");
    put(&mut line, boundary);
    put(&mut line, "--");
    put(&mut line, "\r\n");
    assert(line@ =~= tail(boundary@));
    line
}

/// A multipart form.
#[derive(Debug)]
pub struct Multipart {
    pub boundary: String,
    pub fields: Vec<Part>,
}

impl Multipart {
    /// The body as one buffer, for a form that holds every payload in
    /// memory: every part behind a boundary line and with the end of its
    /// own line, then the line that ends the body.
    pub open spec fn rendered(&self) -> Seq<u8> {
        rendered_parts(self.boundary@, self.fields@, self.fields@.len() as int) + closing(
            self.boundary@,
        )
    }

    /// What a stream or a reader of the body delivers: nothing for a form
    /// without parts, else the opening boundary line, the parts with a
    /// separator between each two, and the tail.
    pub open spec fn items(&self, buf_size: Option<usize>) -> Seq<Item> {
        if self.fields@.len() == 0 {
            Seq::empty()
        } else {
            streamed_parts(self.boundary@, self.fields@, self.fields@.len() as int, buf_size)
                + seq![Item::Chunk(tail(self.boundary@))]
        }
    }

    /// The length of the body as one buffer: `None` where the length of a
    /// payload is not known.
    pub open spec fn spec_size_hint(&self) -> Option<nat> {
        match hinted_parts(self.boundary@, self.fields@, self.fields@.len() as int) {
            Some(parts) => Some(parts + closing(self.boundary@).len()),
            None => None,
        }
    }

    /// Whether every payload is held in memory.
    pub open spec fn spec_is_resolved(&self) -> bool {
        forall|i: int| 0 <= i < self.fields@.len() ==> (#[trigger] self.fields@[i]).data is Bytes
    }

    /// Whether the encoder can take every payload that is held in memory.
    pub open spec fn spec_is_encodable(&self) -> bool {
        forall|i: int|
            0 <= i < self.fields@.len() ==> (#[trigger] self.fields@[i]).data.fits(
                self.fields@[i].encoding,
            )
    }

    /// Whether `part` was added to `before` and nothing else was changed.
    pub open spec fn added(&self, before: &Multipart) -> bool {
        &&& self.boundary == before.boundary
        &&& self.fields@.len() == before.fields@.len() + 1
        &&& self.fields@.take(before.fields@.len() as int) == before.fields@
    }

    /// A form without parts, with a boundary of thirty random letters and
    /// digits.
    pub fn new() -> (form: Self)
        ensures
            form.fields@.len() == 0,
            form.boundary@.len() == 30,
            forall|i: int| 0 <= i < 30 ==> is_alphanumeric(#[trigger] form.boundary@[i]),
    {
        Multipart { boundary: generate_boundary(), fields: Vec::new() }
    }

    /// A form without parts, with the boundary given.
    pub fn with_boundary(boundary: &str) -> (form: Self)
        ensures
            form.fields@.len() == 0,
            form.boundary@ == boundary@,
    {
        Multipart { boundary: boundary.to_owned(), fields: Vec::new() }
    }

    /// Adds `part` behind the parts that the form holds.
    pub fn add_part(&mut self, part: Part)
        ensures
            final(self).boundary == old(self).boundary,
            final(self).fields@ == old(self).fields@.push(part),
    {
        self.fields.push(part);
    }

    /// Adds a text field.
    pub fn add_text(&mut self, name: &str, value: &str)
        ensures
            final(self).added(old(self)),
            final(self).fields@.last().is_text(name@, encode_utf8(value@), "text/plain"@, None),
    {
        self.fields.push(Part::text(name, value.as_bytes(), None));
        assert(self.fields@.take(old(self).fields@.len() as int) =~= old(self).fields@);
    }

    /// Adds a text field whose value goes out under `encoding`.
    pub fn add_enc_text(&mut self, name: &str, value: &str, encoding: Encoding)
        ensures
            final(self).added(old(self)),
            final(self).fields@.last().is_text(
                name@,
                encode_utf8(value@),
                "text/plain"@,
                Some(encoding),
            ),
    {
        self.fields.push(Part::text(name, value.as_bytes(), Some(encoding)));
        assert(self.fields@.take(old(self).fields@.len() as int) =~= old(self).fields@);
    }

    /// Adds a text field with the media type that `content_type` holds,
    /// and hands on the error where it holds one.
    pub fn add_text_typed(
        &mut self,
        name: &str,
        value: &str,
        content_type: Result<String, Error>,
    ) -> (r: Result<(), Error>)
        ensures
            match content_type {
                Ok(essence) => {
                    &&& r is Ok
                    &&& final(self).added(old(self))
                    &&& final(self).fields@.last().is_text(
                        name@,
                        encode_utf8(value@),
                        essence@,
                        None,
                    )
                },
                Err(e) => r == Err::<(), Error>(e) && *final(self) == *old(self),
            },
    {
        match content_type {
            Ok(essence) => {
                let mut part: Part = Part::text(name, value.as_bytes(), None);
                part.content_type = essence;
                self.fields.push(part);
                assert(self.fields@.take(old(self).fields@.len() as int) =~= old(self).fields@);
                Ok(())
            },
            Err(e) => Err(e),
        }
    }

    /// Adds a text field with a media type of its own. Fails where `mime`
    /// is no media type, and then leaves the form as it was.
    pub fn add_text_mime(&mut self, name: &str, value: &str, mime: &str) -> (r: Result<(), Error>)
        ensures
            match media_type_essence(mime@) {
                Some(essence) => {
                    &&& r is Ok
                    &&& final(self).added(old(self))
                    &&& final(self).fields@.last().is_text(
                        name@,
                        encode_utf8(value@),
                        essence,
                        None,
                    )
                },
                None => {
                    &&& r == Err::<(), Error>(Error::InvalidContentType)
                    &&& *final(self) == *old(self)
                },
            },
    {
        self.add_text_typed(name, value, parse_content_type(mime))
    }

    /// Adds a file field over `data` with the media type that
    /// `content_type` holds, and hands on the error where it holds one.
    pub fn add_file_typed(
        &mut self,
        name: &str,
        filename: &str,
        data: Payload,
        content_type: Result<String, Error>,
        encoding: Option<Encoding>,
    ) -> (r: Result<(), Error>)
        ensures
            match content_type {
                Ok(essence) => {
                    &&& r is Ok
                    &&& final(self).added(old(self))
                    &&& final(self).fields@.last().is_file(
                        name@,
                        filename@,
                        data,
                        essence@,
                        encoding,
                    )
                },
                Err(e) => r == Err::<(), Error>(e) && *final(self) == *old(self),
            },
    {
        match content_type {
            Ok(essence) => {
                let part: Part = Part {
                    name: name.to_owned(),
                    data,
                    content_type: essence,
                    encoding,
                    file_data: Some(filename.to_owned()),
                };
                self.fields.push(part);
                assert(self.fields@.take(old(self).fields@.len() as int) =~= old(self).fields@);
                Ok(())
            },
            Err(e) => Err(e),
        }
    }

    /// Adds a file field over bytes in memory. Fails where `mime` is no
    /// media type, and then leaves the form as it was.
    pub fn add_file_bytes(
        &mut self,
        name: &str,
        filename: &str,
        value: &[u8],
        mime: &str,
        encoding: Option<Encoding>,
    ) -> (r: Result<(), Error>)
        ensures
            match media_type_essence(mime@) {
                Some(essence) => {
                    &&& r is Ok
                    &&& final(self).added(old(self))
                    &&& final(self).fields@.last().is_file_of(
                        name@,
                        filename@,
                        value@,
                        essence,
                        encoding,
                    )
                },
                None => {
                    &&& r == Err::<(), Error>(Error::InvalidContentType)
                    &&& *final(self) == *old(self)
                },
            },
    {
        let content_type = parse_content_type(mime);
        let data: Payload = Payload::Bytes(slice_to_vec(value));
        self.add_file_typed(name, filename, data, content_type, encoding)
    }

    /// Adds a file field over the bytes that were read from a byte source.
    /// Fails where `content_type` is no media type, and then leaves the
    /// form as it was.
    pub fn add_sync_read(
        &mut self,
        name: &str,
        filename: &str,
        content_type: &str,
        encoding: Option<Encoding>,
        data: Vec<u8>,
    ) -> (r: Result<(), Error>)
        ensures
            match media_type_essence(content_type@) {
                Some(essence) => {
                    &&& r is Ok
                    &&& final(self).added(old(self))
                    &&& final(self).fields@.last().is_file_of(
                        name@,
                        filename@,
                        data@,
                        essence,
                        encoding,
                    )
                },
                None => {
                    &&& r == Err::<(), Error>(Error::InvalidContentType)
                    &&& *final(self) == *old(self)
                },
            },
    {
        let content_type = parse_content_type(content_type);
        self.add_file_typed(name, filename, Payload::Bytes(data), content_type, encoding)
    }

    /// Adds a file field over an outside byte source, which its owner
    /// knows as `data`, with the length of the source where that is
    /// known. Fails where `content_type` is no media type, and then leaves
    /// the form as it was.
    pub fn add_async_read(
        &mut self,
        name: &str,
        filename: &str,
        content_type: &str,
        encoding: Option<Encoding>,
        data: usize,
        data_len: Option<usize>,
    ) -> (r: Result<(), Error>)
        ensures
            match media_type_essence(content_type@) {
                Some(essence) => {
                    &&& r is Ok
                    &&& final(self).added(old(self))
                    &&& final(self).fields@.last().is_file(
                        name@,
                        filename@,
                        Payload::Reader { key: data, len: data_len },
                        essence,
                        encoding,
                    )
                },
                None => {
                    &&& r == Err::<(), Error>(Error::InvalidContentType)
                    &&& *final(self) == *old(self)
                },
            },
    {
        let content_type = parse_content_type(content_type);
        self.add_file_typed(
            name,
            filename,
            Payload::Reader { key: data, len: data_len },
            content_type,
            encoding,
        )
    }

    /// Adds a file field over the file at `path`, which was opened as the
    /// outside byte source that its owner knows as `data`, and holds
    /// `data_len` bytes. The file name and the media type go by `path`.
    pub fn add_file(
        &mut self,
        name: &str,
        path: &str,
        encoding: Option<Encoding>,
        data: usize,
        data_len: usize,
    )
        ensures
            final(self).added(old(self)),
            final(self).fields@.last().name@ == name@,
            final(self).fields@.last().data == (Payload::Reader {
                key: data,
                len: Some(data_len),
            }),
            final(self).fields@.last().file_data is Some,
            final(self).fields@.last().encoding == encoding,
    {
        self.fields.push(Part::file_async(name, path, encoding, data, data_len));
        assert(self.fields@.take(old(self).fields@.len() as int) =~= old(self).fields@);
    }

    /// The value of the `Content-Type` header of a request that carries
    /// the form.
    pub fn content_type(&self) -> (value: String)
        ensures
            value@ == "multipart/form-data; boundary="@ + self.boundary@,
    {
        let mut value: String = "multipart/form-data; boundary=".to_owned();
        value.append(self.boundary.as_str());
        value
    }

    /// The body as a stream of chunks: the opening boundary line, the
    /// chunks of the first part, then for every further part a separator
    /// and its chunks, then the tail. A form without parts gives a stream
    /// without chunks.
    pub fn into_stream(self, buf_size: Option<usize>) -> (body: Body)
        requires
            self.is_encodable(),
        ensures
            body.wf(),
            body.items() == self.items(buf_size),
    {
        let mut body: Body = Body::new();
        if self.fields.len() == 0 {
            return body;
        }
        proof {
            lemma_boundary_lines(self.boundary@);
        }
        body.append(ReaderStream::once(delimiter_bytes(self.boundary.as_str())));
        let ghost boundary = self.boundary@;
        let ghost parts = self.fields@;
        let mut first: bool = true;
        for field in it: self.fields
            invariant
                it.seq() == parts,
                boundary == self.boundary@,
                parts.len() > 0,
                self.is_encodable(),
                parts == self.fields@,
                first == (it.index() == 0),
                body.wf(),
                body.items() == if it.index() == 0 {
                    seq![Item::Chunk(delimiter(boundary))]
                } else {
                    streamed_parts(boundary, parts, it.index() as int, buf_size)
                },
        {
            proof {
                lemma_boundary_lines(boundary);
                assert(field == parts[it.index() as int]);
            }
            if !first {
                body.append(ReaderStream::once(separator_bytes(self.boundary.as_str())));
            }
            first = false;
            field.append_to(&mut body, buf_size);
        }
        proof {
            lemma_boundary_lines(boundary);
        }
        body.append(ReaderStream::once(tail_bytes(self.boundary.as_str())));
        body
    }

    /// The body behind a reader's buffer. It delivers what the stream
    /// delivers.
    pub fn into_reader(self, buf_size: Option<usize>) -> (body: Body)
        requires
            self.is_encodable(),
        ensures
            body.wf(),
            body.items() == self.items(buf_size),
    {
        self.into_stream(buf_size)
    }

    /// The body as one buffer, for a form that holds every payload in
    /// memory.
    pub fn into_bytes(self) -> (data: Vec<u8>)
        requires
            self.is_resolved(),
            self.is_encodable(),
        ensures
            data@ == self.rendered(),
    {
        let mut data: Vec<u8> = Vec::new();
        let ghost boundary = self.boundary@;
        let ghost parts = self.fields@;
        for field in it: self.fields
            invariant
                it.seq() == parts,
                boundary == self.boundary@,
                parts == self.fields@,
                self.is_resolved(),
                self.is_encodable(),
                data@ == rendered_parts(boundary, parts, it.index() as int),
        {
            proof {
                assert(field == parts[it.index() as int]);
            }
            let ghost before = data@;
            put(&mut data, "--");
            put(&mut data, self.boundary.as_str());
            put(&mut data, "\r\n");
            field.extend(&mut data);
            put(&mut data, "\r\n");
            assert(data@ =~= before + delimiter(boundary) + field.rendered() + crlf());
        }
        let ghost before = data@;
        put(&mut data, "--");
        put(&mut data, self.boundary.as_str());
        put(&mut data, "--");
        put(&mut data, "\r\n");
        assert(data@ =~= before + closing(boundary));
        data
    }

    /// Whether every payload is held in memory.
    #[verifier::when_used_as_spec(spec_is_resolved)]
    pub fn is_resolved(&self) -> (ok: bool)
        ensures
            ok == self.spec_is_resolved(),
    {
        let n: usize = self.fields.len();
        let mut i: usize = 0;
        while i < n
            invariant
                n == self.fields@.len(),
                0 <= i <= n,
                forall|j: int| 0 <= j < i ==> (#[trigger] self.fields@[j]).data is Bytes,
            decreases n - i,
        {
            match &self.fields[i].data {
                Payload::Bytes(_) => {},
                Payload::Reader { .. } => {
                    return false;
                },
            }
            i = i + 1;
        }
        true
    }

    /// Whether the encoder can take every payload that is held in memory.
    #[verifier::when_used_as_spec(spec_is_encodable)]
    pub fn is_encodable(&self) -> (ok: bool)
        ensures
            ok == self.spec_is_encodable(),
    {
        let n: usize = self.fields.len();
        let mut i: usize = 0;
        while i < n
            invariant
                n == self.fields@.len(),
                0 <= i <= n,
                forall|j: int|
                    0 <= j < i ==> (#[trigger] self.fields@[j]).data.fits(self.fields@[j].encoding),
            decreases n - i,
        {
            if !self.fields[i].is_encodable() {
                return false;
            }
            i = i + 1;
        }
        true
    }

    /// Whether the length of the body can be told.
    pub fn is_sized(&self) -> (known: bool)
        ensures
            known == self.spec_size_hint() is Some,
    {
        let n: usize = self.fields.len();
        let mut i: usize = 0;
        while i < n
            invariant
                n == self.fields@.len(),
                0 <= i <= n,
                forall|j: int| 0 <= j < i ==> (#[trigger] self.fields@[j]).data.spec_len() is Some,
            decreases n - i,
        {
            if self.fields[i].data.len().is_none() {
                proof {
                    lemma_hinted_unknown(self.boundary@, self.fields@, n as int, i as int);
                }
                return false;
            }
            i = i + 1;
        }
        proof {
            lemma_hinted_known(self.boundary@, self.fields@, n as int);
        }
        true
    }

    /// The length of the body as one buffer: `None` where the length of a
    /// payload is not known.
    pub fn size_hint(&self) -> (hint: Option<usize>)
        requires
            self.spec_size_hint() matches Some(n) ==> n <= usize::MAX,
        ensures
            match hint {
                Some(n) => self.spec_size_hint() == Some(n as nat),
                None => self.spec_size_hint() is None,
            },
    {
        if !self.is_sized() {
            return None;
        }
        proof {
            lemma_boundary_lines(self.boundary@);
            lemma_fixed_texts();
        }
        let n: usize = self.fields.len();
        let line: usize = self.boundary.as_str().len();
        let mut size: usize = line + 6;
        let mut i: usize = 0;
        while i < n
            invariant
                n == self.fields@.len(),
                0 <= i <= n,
                line == encode_utf8(self.boundary@).len(),
                self.spec_size_hint() matches Some(total) && total <= usize::MAX,
                hinted_parts(self.boundary@, self.fields@, i as int) matches Some(parts) && size
                    == parts + line + 6,
            decreases n - i,
        {
            proof {
                lemma_boundary_lines(self.boundary@);
                lemma_fixed_texts();
                lemma_hinted_grows(self.boundary@, self.fields@, i + 1, n as int);
            }
            let part: Option<usize> = self.fields[i].size_hint();
            match part {
                Some(part) => {
                    size = size + (line + 4) + part + 2;
                },
                None => {
                    return None;
                },
            }
            i = i + 1;
        }
        Some(size)
    }

    /// The length of the body as one buffer, where the length of every
    /// payload is known and `usize` can hold the sum.
    pub fn checked_size_hint(&self) -> (hint: Option<usize>)
        ensures
            hint == match self.spec_size_hint() {
                Some(n) => if n <= usize::MAX {
                    Some(n as usize)
                } else {
                    None
                },
                None => None,
            },
    {
        if !self.is_sized() {
            return None;
        }
        proof {
            lemma_boundary_lines(self.boundary@);
            lemma_fixed_texts();
        }
        let n: usize = self.fields.len();
        let line: usize = byte_len(self.boundary.as_str());
        let mut size: Option<usize> = checked_sum(Some(6), line);
        let mut i: usize = 0;
        while i < n
            invariant
                n == self.fields@.len(),
                0 <= i <= n,
                line == encode_utf8(self.boundary@).len(),
                self.spec_size_hint() is Some,
                hinted_parts(self.boundary@, self.fields@, i as int) matches Some(parts) && size
                    == if parts + line + 6 <= usize::MAX {
                    Some((parts + line + 6) as usize)
                } else {
                    None
                },
            decreases n - i,
        {
            proof {
                lemma_boundary_lines(self.boundary@);
                lemma_fixed_texts();
                lemma_hinted_grows(self.boundary@, self.fields@, i + 1, n as int);
            }
            match self.fields[i].checked_size_hint() {
                Some(part) => {
                    size = checked_sum(checked_sum(checked_sum(size, line), 6), part);
                },
                None => {
                    proof {
                        lemma_hinted_grows(self.boundary@, self.fields@, i + 1, n as int);
                    }
                    return None;
                },
            }
            i = i + 1;
        }
        size
    }

    /// A form that holds every payload in memory has no outside source
    /// among the items of its body.
    pub proof fn lemma_items_resolved(&self, buf_size: Option<usize>)
        requires
            self.is_resolved(),
        ensures
            resolved(self.items(buf_size)),
    {
        let n = self.fields@.len() as int;
        if n > 0 {
            lemma_streamed_resolved(self.boundary@, self.fields@, n, buf_size);
            let parts = streamed_parts(self.boundary@, self.fields@, n, buf_size);
            let items = self.items(buf_size);
            assert forall|i: int| 0 <= i < items.len() implies (#[trigger] items[i]) is Chunk by {
                if i < parts.len() {
                    assert(items[i] == parts[i]);
                }
            }
        }
    }

    /// The three renderings carry the same bytes: the chunks of the
    /// stream, laid end to end, and so the bytes that the reader hands
    /// out, are the body as one buffer. This holds of a form with a part
    /// in it, at the default size of the reads and at every size at which
    /// the chunks of each payload join.
    pub proof fn lemma_renderings_agree(&self, buf_size: Option<usize>)
        requires
            self.fields@.len() > 0,
            self.is_resolved(),
            forall|i: int|
                0 <= i < self.fields@.len() ==> (#[trigger] self.fields@[i]).chunks_join(buf_size),
        ensures
            bytes_of(self.items(buf_size)) == self.rendered(),
            chunks_of(self.items(buf_size)).flatten() == self.rendered(),
    {
        let n = self.fields@.len() as int;
        lemma_streamed_bytes(self.boundary@, self.fields@, n, buf_size);
        let parts = streamed_parts(self.boundary@, self.fields@, n, buf_size);
        let last = seq![Item::Chunk(tail(self.boundary@))];
        lemma_bytes_of_concat(parts, last);
        assert(bytes_of(last) =~= tail(self.boundary@)) by {
            assert(bytes_of(last.skip(1)) =~= Seq::<u8>::empty());
        }
        assert(bytes_of(self.items(buf_size)) =~= self.rendered());
        lemma_chunks_flatten(self.items(buf_size));
    }

    /// The stream and the reader carry the same bytes, at every size of
    /// the reads: the chunks that the stream of a form hands out, laid end
    /// to end, are the bytes that the reader of the same form hands out.
    pub proof fn lemma_stream_and_reader_agree(&self, buf_size: Option<usize>)
        ensures
            chunks_of(self.items(buf_size)).flatten() == bytes_of(self.items(buf_size)),
    {
        lemma_chunks_flatten(self.items(buf_size));
    }

    /// The size hint is the length of the body as one buffer, for a form
    /// whose parts all have an exact hint: that is every form that holds
    /// its payloads in memory, but for those with a quoted-printable
    /// payload that the encoding makes longer.
    pub proof fn lemma_size_hint_exact(&self)
        requires
            forall|i: int|
                0 <= i < self.fields@.len() ==> (#[trigger] self.fields@[i]).hint_is_exact(),
        ensures
            self.spec_size_hint() == Some(self.rendered().len()),
    {
        lemma_hinted_exact(self.boundary@, self.fields@, self.fields@.len() as int);
    }
}

impl Default for Multipart {
    /// A form without parts, with a boundary of thirty random letters and
    /// digits.
    fn default() -> (form: Self)
        ensures
            form.fields@.len() == 0,
            form.boundary@.len() == 30,
            forall|i: int| 0 <= i < 30 ==> is_alphanumeric(#[trigger] form.boundary@[i]),
    {
        Self::new()
    }
}

/// The first `k` parts of a form that holds them in memory have no
/// outside source among their items.
proof fn lemma_streamed_resolved(
    boundary: Seq<char>,
    parts: Seq<Part>,
    k: int,
    buf_size: Option<usize>,
)
    requires
        0 <= k <= parts.len(),
        forall|i: int| 0 <= i < parts.len() ==> (#[trigger] parts[i]).data is Bytes,
    ensures
        resolved(streamed_parts(boundary, parts, k, buf_size)),
    decreases k,
{
    if k > 0 {
        let part = parts[k - 1].items(buf_size);
        parts[k - 1].lemma_items_resolved(buf_size);
        let items = streamed_parts(boundary, parts, k, buf_size);
        if k == 1 {
            assert forall|i: int| 0 <= i < items.len() implies (#[trigger] items[i]) is Chunk by {
                if i > 0 {
                    assert(items[i] == part[i - 1]);
                }
            }
        } else {
            lemma_streamed_resolved(boundary, parts, k - 1, buf_size);
            let before = streamed_parts(boundary, parts, k - 1, buf_size);
            assert forall|i: int| 0 <= i < items.len() implies (#[trigger] items[i]) is Chunk by {
                if i < before.len() {
                    assert(items[i] == before[i]);
                } else if i > before.len() {
                    assert(items[i] == part[i - before.len() - 1]);
                }
            }
        }
    }
}

/// What the stream delivers up to and with the `k`-th part, and the end
/// of the line of that part, are the bytes of the first `k` parts.
proof fn lemma_streamed_bytes(
    boundary: Seq<char>,
    parts: Seq<Part>,
    k: int,
    buf_size: Option<usize>,
)
    requires
        0 < k <= parts.len(),
        forall|i: int| 0 <= i < parts.len() ==> (#[trigger] parts[i]).data is Bytes,
        forall|i: int| 0 <= i < parts.len() ==> (#[trigger] parts[i]).chunks_join(buf_size),
    ensures
        bytes_of(streamed_parts(boundary, parts, k, buf_size)) + crlf() == rendered_parts(
            boundary,
            parts,
            k,
        ),
    decreases k,
{
    let part = parts[k - 1];
    part.lemma_items_render(buf_size);
    if k == 1 {
        let first = seq![Item::Chunk(delimiter(boundary))];
        lemma_bytes_of_concat(first, part.items(buf_size));
        assert(bytes_of(first) =~= delimiter(boundary)) by {
            assert(bytes_of(first.skip(1)) =~= Seq::<u8>::empty());
        }
        assert(rendered_parts(boundary, parts, 0) =~= Seq::<u8>::empty());
        assert(bytes_of(streamed_parts(boundary, parts, k, buf_size)) + crlf() =~= rendered_parts(
            boundary,
            parts,
            k,
        ));
    } else {
        lemma_streamed_bytes(boundary, parts, k - 1, buf_size);
        let before = streamed_parts(boundary, parts, k - 1, buf_size);
        let between = seq![Item::Chunk(separator(boundary))];
        lemma_bytes_of_concat(before + between, part.items(buf_size));
        lemma_bytes_of_concat(before, between);
        assert(bytes_of(between) =~= separator(boundary)) by {
            assert(bytes_of(between.skip(1)) =~= Seq::<u8>::empty());
        }
        assert(bytes_of(streamed_parts(boundary, parts, k, buf_size)) + crlf() =~= (bytes_of(before)
            + crlf()) + delimiter(boundary) + part.rendered() + crlf());
    }
}

/// Where the hints of the first `k` parts are exact, their sum is the
/// length of the bytes of these parts.
proof fn lemma_hinted_exact(boundary: Seq<char>, parts: Seq<Part>, k: int)
    requires
        0 <= k <= parts.len(),
        forall|i: int| 0 <= i < parts.len() ==> (#[trigger] parts[i]).hint_is_exact(),
    ensures
        hinted_parts(boundary, parts, k) == Some(rendered_parts(boundary, parts, k).len()),
    decreases k,
{
    if k > 0 {
        lemma_hinted_exact(boundary, parts, k - 1);
        parts[k - 1].lemma_size_hint_exact();
    }
}

} // verus!
