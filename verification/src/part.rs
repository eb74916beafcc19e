//! One field of a multipart form: its header block, its payload and the
//! length of both.

use crate::body::Body;
use crate::content_type::content_type;
use crate::encoding::{base64_len, base64_size, transfer, Encoding};
use crate::reader_stream::{
    joins, lemma_memory_items_join, lemma_memory_items_resolved, lemma_memory_items_whole,
    payload_items, read_size, Payload, ReaderStream,
};
use crate::stream::{bytes_of, lemma_bytes_of_concat, lemma_resolved_skip, resolved, Item, Poll};
use vstd::prelude::*;
use vstd::slice::slice_to_vec;
use vstd::utf8::{encode_utf8, is_ascii_chars, is_ascii_chars_encode_utf8};

verus! {

/// The bytes `\r\n` that end a line.
pub open spec fn crlf() -> Seq<u8> {
    encode_utf8("\r\n"@)
}

/// The lengths of the fixed texts of a header block, and of the names of
/// the encodings.
pub proof fn lemma_fixed_texts()
    ensures
        encode_utf8("Content-Disposition: form-data; name=\""@).len() == 38,
        encode_utf8("\""@).len() == 1,
        encode_utf8("; filename=\""@).len() == 12,
        encode_utf8("Content-Type: "@).len() == 14,
        encode_utf8("Content-Transfer-Encoding: "@).len() == 27,
        crlf().len() == 2,
        encode_utf8(Encoding::SevenBit.wire_name()).len() == 4,
        encode_utf8(Encoding::EightBit.wire_name()).len() == 4,
        encode_utf8(Encoding::Base64.wire_name()).len() == 6,
        encode_utf8(Encoding::QuotedPrintable.wire_name()).len() == 16,
{
    reveal_strlit("Content-Disposition: form-data; name=\"");
    reveal_strlit("\"");
    reveal_strlit("; filename=\"");
    reveal_strlit("Content-Type: ");
    reveal_strlit("Content-Transfer-Encoding: ");
    reveal_strlit("\r\n");
    reveal_strlit("7bit");
    reveal_strlit("8bit");
    reveal_strlit("base64");
    reveal_strlit("quoted-printable");
    assert(is_ascii_chars("Content-Disposition: form-data; name=\""@));
    assert(is_ascii_chars("\""@));
    assert(is_ascii_chars("; filename=\""@));
    assert(is_ascii_chars("Content-Type: "@));
    assert(is_ascii_chars("Content-Transfer-Encoding: "@));
    assert(is_ascii_chars("\r\n"@));
    assert(is_ascii_chars("7bit"@));
    assert(is_ascii_chars("8bit"@));
    assert(is_ascii_chars("base64"@));
    assert(is_ascii_chars("quoted-printable"@));
    is_ascii_chars_encode_utf8("Content-Disposition: form-data; name=\""@);
    is_ascii_chars_encode_utf8("\""@);
    is_ascii_chars_encode_utf8("; filename=\""@);
    is_ascii_chars_encode_utf8("Content-Type: "@);
    is_ascii_chars_encode_utf8("Content-Transfer-Encoding: "@);
    is_ascii_chars_encode_utf8("\r\n"@);
    is_ascii_chars_encode_utf8("7bit"@);
    is_ascii_chars_encode_utf8("8bit"@);
    is_ascii_chars_encode_utf8("base64"@);
    is_ascii_chars_encode_utf8("quoted-printable"@);
}

/// Appends the bytes of `text` to `out`.
pub(crate) fn put(out: &mut Vec<u8>, text: &str)
    ensures
        final(out)@ == old(out)@ + encode_utf8(text@),
{
    out.extend_from_slice(text.as_bytes());
    assert(out@ =~= old(out)@ + encode_utf8(text@));
}


/// `std::path::Path::file_name`, with what is not Unicode in the name
/// replaced as `to_string_lossy` does it.
///
/// Trusted: nothing is claimed of the result. Where a path ends and its
/// last component begins is for the platform to say.
#[verifier::external_body]
fn file_name(path: &str) -> (name: Option<String>) {
    match std::path::Path::new(path).file_name() {
        Some(name) => Some(name.to_string_lossy().into_owned()),
        None => None,
    }
}

/// The file name of a part: the last component of its path, and `file`
/// where the path has none.
pub fn file_label(name: Option<String>) -> (label: String)
    ensures
        label@ == match name {
            Some(found) => found@,
            None => "file"@,
        },
{
    match name {
        Some(found) => found,
        None => "file".to_owned(),
    }
}

/// The file name that goes into the header of a part for the file at
/// `path`.
pub fn filename(path: &str) -> (label: String) {
    file_label(file_name(path))
}

/// The number of bytes of `text`.
pub(crate) fn byte_len(text: &str) -> (n: usize)
    ensures
        n == encode_utf8(text@).len(),
{
    text.as_bytes().len()
}

/// The sum of `a` and `b`, where `a` is a number and `usize` can hold the
/// sum.
pub(crate) fn checked_sum(a: Option<usize>, b: usize) -> (sum: Option<usize>)
    ensures
        sum == match a {
            Some(x) => if x + b <= usize::MAX {
                Some((x + b) as usize)
            } else {
                None
            },
            None => None,
        },
{
    match a {
        Some(x) => x.checked_add(b),
        None => None,
    }
}

/// One field of a multipart form.
#[derive(Debug)]
pub struct Part {
    pub name: String,
    pub data: Payload,
    /// The essence of the media type, such as `text/plain`.
    pub content_type: String,
    /// The file name, which a file part has and a text part has not.
    pub file_data: Option<String>,
    pub encoding: Option<Encoding>,
}

impl Part {
    /// Whether the part is the text field of this name and value.
    pub open spec fn is_text(
        &self,
        name: Seq<char>,
        value: Seq<u8>,
        content_type: Seq<char>,
        encoding: Option<Encoding>,
    ) -> bool {
        &&& self.name@ == name
        &&& self.data matches Payload::Bytes(data) && data@ == value
        &&& self.content_type@ == content_type
        &&& self.file_data is None
        &&& self.encoding == encoding
    }

    /// Whether the part is the file field of this name, file name and
    /// payload.
    pub open spec fn is_file(
        &self,
        name: Seq<char>,
        filename: Seq<char>,
        data: Payload,
        content_type: Seq<char>,
        encoding: Option<Encoding>,
    ) -> bool {
        &&& self.name@ == name
        &&& self.data == data
        &&& self.content_type@ == content_type
        &&& self.file_data matches Some(f) && f@ == filename
        &&& self.encoding == encoding
    }

    /// Whether the part is the file field of this name and file name over
    /// these bytes in memory.
    pub open spec fn is_file_of(
        &self,
        name: Seq<char>,
        filename: Seq<char>,
        bytes: Seq<u8>,
        content_type: Seq<char>,
        encoding: Option<Encoding>,
    ) -> bool {
        &&& self.name@ == name
        &&& self.data matches Payload::Bytes(data) && data@ == bytes
        &&& self.content_type@ == content_type
        &&& self.file_data matches Some(f) && f@ == filename
        &&& self.encoding == encoding
    }

    /// The `Content-Disposition` line, with the file name where the part
    /// has one.
    pub open spec fn disposition(&self) -> Seq<u8> {
        encode_utf8("Content-Disposition: form-data; name=\""@) + encode_utf8(self.name@)
            + encode_utf8("\""@) + match self.file_data {
            Some(filename) => encode_utf8("; filename=\""@) + encode_utf8(filename@) + encode_utf8(
                "\""@,
            ),
            None => Seq::empty(),
        } + crlf()
    }

    /// The `Content-Type` line.
    pub open spec fn type_line(&self) -> Seq<u8> {
        encode_utf8("Content-Type: "@) + encode_utf8(self.content_type@) + crlf()
    }

    /// The `Content-Transfer-Encoding` line of a part that has an
    /// encoding, and nothing for a part that has none.
    pub open spec fn transfer_line(&self) -> Seq<u8> {
        match self.encoding {
            Some(e) => encode_utf8("Content-Transfer-Encoding: "@) + encode_utf8(e.wire_name())
                + crlf(),
            None => Seq::empty(),
        }
    }

    /// The header block: the three lines in this order, and an empty line.
    pub open spec fn header(&self) -> Seq<u8> {
        self.disposition() + self.type_line() + self.transfer_line() + crlf()
    }

    /// The length of the header block, summed up from the lengths of the
    /// texts in it.
    pub open spec fn spec_header_len(&self) -> nat {
        39 + encode_utf8(self.name@).len() + match self.file_data {
            Some(filename) => 13 + encode_utf8(filename@).len(),
            None => 0,
        } + 2 + 14 + encode_utf8(self.content_type@).len() + 2 + match self.encoding {
            Some(e) => 27 + encode_utf8(e.wire_name()).len() + 2,
            None => 0,
        } + 2
    }

    /// The sum is the length of the header block.
    pub proof fn lemma_header_len(&self)
        ensures
            self.header().len() == self.spec_header_len(),
            self.header().len() >= 59,
    {
        lemma_fixed_texts();
    }

    /// The size of the reads of the payload: the size asked for, else the
    /// length of the payload where it is known.
    pub open spec fn chunk_hint(&self, buf_size: Option<usize>) -> Option<usize> {
        match buf_size {
            Some(n) => Some(n),
            None => self.data.spec_len(),
        }
    }

    /// What the part delivers: its header block as one chunk, then its
    /// payload read by read.
    pub open spec fn items(&self, buf_size: Option<usize>) -> Seq<Item> {
        seq![Item::Chunk(self.header())] + payload_items(
            self.data,
            read_size(self.chunk_hint(buf_size), self.encoding),
            self.encoding,
        )
    }

    /// The encoded payload of a part that holds its bytes in memory.
    pub open spec fn encoded_payload(&self) -> Seq<u8> {
        match self.data {
            Payload::Bytes(data) => if data@.len() == 0 {
                Seq::empty()
            } else {
                transfer(self.encoding, data@)
            },
            Payload::Reader { .. } => Seq::empty(),
        }
    }

    /// The bytes of a part that holds its payload in memory: the header
    /// block and the encoded payload.
    pub open spec fn rendered(&self) -> Seq<u8> {
        self.header() + self.encoded_payload()
    }

    /// The length that the payload is taken to have on the wire, where
    /// the raw length is known: exact under base64, and the raw length
    /// under every other encoding. Quoted-printable may in fact be longer.
    pub open spec fn payload_hint(&self) -> Option<nat> {
        match self.data.spec_len() {
            Some(n) => Some(
                if self.encoding == Some(Encoding::Base64) {
                    base64_len(n as nat)
                } else {
                    n as nat
                },
            ),
            None => None,
        }
    }

    /// The length of the part on the wire, where the length of its
    /// payload is known.
    pub open spec fn spec_size_hint(&self) -> Option<nat> {
        match self.payload_hint() {
            Some(n) => Some(self.header().len() + n),
            None => None,
        }
    }

    /// Whether the length that is taken for the payload is its length on
    /// the wire. It is, but for a quoted-printable payload that the
    /// encoding makes longer.
    pub open spec fn hint_is_exact(&self) -> bool {
        self.data matches Payload::Bytes(data) && (self.encoding == Some(Encoding::QuotedPrintable)
            ==> transfer(self.encoding, data@).len() == data@.len())
    }

    /// Read in one piece, a part delivers its bytes: the default size of
    /// the reads of a payload in memory is its length.
    pub proof fn lemma_items_whole(&self)
        requires
            self.data is Bytes,
        ensures
            bytes_of(self.items(None)) == self.rendered(),
    {
        let data = self.data->Bytes_0@;
        let size = read_size(self.chunk_hint(None), self.encoding);
        assert(size >= data.len()) by {
            assert(self.data->Bytes_0.len() == data.len());
        }
        lemma_memory_items_whole(data, size, self.encoding);
        let payload = payload_items(self.data, size, self.encoding);
        let first = seq![Item::Chunk(self.header())];
        lemma_bytes_of_concat(first, payload);
        assert(bytes_of(first) =~= self.header()) by {
            assert(bytes_of(first.skip(1)) =~= Seq::<u8>::empty());
        }
        if data.len() > 0 {
            assert(bytes_of(payload) =~= transfer(self.encoding, data)) by {
                assert(bytes_of(payload.skip(1)) =~= Seq::<u8>::empty());
            }
        }
    }

    /// Whether the chunks of the payload, laid end to end, are the encoded
    /// payload when `buf_size` is asked for: they are at the default size,
    /// and at every size above zero at which the encoding joins.
    pub open spec fn chunks_join(&self, buf_size: Option<usize>) -> bool {
        let size = read_size(self.chunk_hint(buf_size), self.encoding);
        buf_size is None || (size > 0 && joins(self.encoding, size))
    }

    /// The chunks of a part, laid end to end, are its bytes, at every size
    /// of the reads at which the chunks of the payload join.
    pub proof fn lemma_items_render(&self, buf_size: Option<usize>)
        requires
            self.data is Bytes,
            self.chunks_join(buf_size),
        ensures
            bytes_of(self.items(buf_size)) == self.rendered(),
    {
        if buf_size is None {
            self.lemma_items_whole();
        } else {
            let data = self.data->Bytes_0@;
            let size = read_size(self.chunk_hint(buf_size), self.encoding);
            lemma_memory_items_join(data, size, self.encoding);
            let payload = payload_items(self.data, size, self.encoding);
            let first = seq![Item::Chunk(self.header())];
            lemma_bytes_of_concat(first, payload);
            assert(bytes_of(first) =~= self.header()) by {
                assert(bytes_of(first.skip(1)) =~= Seq::<u8>::empty());
            }
            if data.len() == 0 {
                assert(transfer(self.encoding, data) =~= Seq::<u8>::empty());
            }
        }
    }

    /// A part that holds its payload in memory has no outside source
    /// among its items.
    pub proof fn lemma_items_resolved(&self, buf_size: Option<usize>)
        requires
            self.data is Bytes,
        ensures
            resolved(self.items(buf_size)),
    {
        let size = read_size(self.chunk_hint(buf_size), self.encoding);
        let payload = payload_items(self.data, size, self.encoding);
        lemma_memory_items_resolved(self.data->Bytes_0@, size, self.encoding);
        let items = self.items(buf_size);
        assert forall|i: int| 0 <= i < items.len() implies (#[trigger] items[i]) is Chunk by {
            if i > 0 {
                assert(items[i] == payload[i - 1]);
            }
        }
    }

    /// Where the hint is exact, it is the length of the bytes of the part.
    pub proof fn lemma_size_hint_exact(&self)
        requires
            self.hint_is_exact(),
        ensures
            self.spec_size_hint() == Some(self.rendered().len()),
    {
        let data = self.data->Bytes_0;
        assert(data.len() == data@.len());
    }

    /// The file name of a file part.
    pub fn filename(&self) -> (name: Option<&str>)
        ensures
            match name {
                Some(s) => self.file_data matches Some(f) && s@ == f@,
                None => self.file_data is None,
            },
    {
        match &self.file_data {
            Some(filename) => Some(filename.as_str()),
            None => None,
        }
    }

    /// The encoding of the payload.
    pub fn encoding(&self) -> (e: Option<Encoding>)
        ensures
            e == self.encoding,
    {
        self.encoding
    }

    /// A text part: media type `text/plain`, no file name.
    pub fn text(name: &str, value: &[u8], encoding: Option<Encoding>) -> (part: Self)
        ensures
            part.name@ == name@,
            part.data matches Payload::Bytes(data) && data@ == value@,
            part.content_type@ == "text/plain"@,
            part.file_data is None,
            part.encoding == encoding,
    {
        Part {
            name: name.to_owned(),
            data: Payload::Bytes(slice_to_vec(value)),
            content_type: "text/plain".to_owned(),
            encoding,
            file_data: None,
        }
    }

    /// A file part over bytes in memory.
    pub fn file_raw(
        name: &str,
        filename: &str,
        content_type: String,
        encoding: Option<Encoding>,
        data: Vec<u8>,
    ) -> (part: Self)
        ensures
            part.name@ == name@,
            part.data == Payload::Bytes(data),
            part.content_type == content_type,
            part.file_data matches Some(f) && f@ == filename@,
            part.encoding == encoding,
    {
        Part {
            name: name.to_owned(),
            data: Payload::Bytes(data),
            content_type,
            encoding,
            file_data: Some(filename.to_owned()),
        }
    }

    /// A file part over an outside byte source, which its owner knows as
    /// `data`, with the length of the source where that is known.
    pub fn file_raw_async(
        name: &str,
        filename: &str,
        content_type: String,
        encoding: Option<Encoding>,
        data: usize,
        data_len: Option<usize>,
    ) -> (part: Self)
        ensures
            part.name@ == name@,
            part.data == (Payload::Reader { key: data, len: data_len }),
            part.content_type == content_type,
            part.file_data matches Some(f) && f@ == filename@,
            part.encoding == encoding,
    {
        Part {
            name: name.to_owned(),
            data: Payload::Reader { key: data, len: data_len },
            content_type,
            encoding,
            file_data: Some(filename.to_owned()),
        }
    }

    /// A file part over the file at `path`, which was opened as the
    /// outside byte source that its owner knows as `data`, and holds
    /// `data_len` bytes. The file name is the last component of `path`,
    /// the media type the one that its extension suggests.
    pub fn file_async(
        name: &str,
        path: &str,
        encoding: Option<Encoding>,
        data: usize,
        data_len: usize,
    ) -> (part: Self)
        ensures
            part.name@ == name@,
            part.data == (Payload::Reader { key: data, len: Some(data_len) }),
            part.file_data is Some,
            part.encoding == encoding,
    {
        let label: String = filename(path);
        Part::file_raw_async(
            name,
            label.as_str(),
            content_type(path),
            encoding,
            data,
            Some(data_len),
        )
    }

    /// Whether the encoder can take the payload.
    pub fn is_encodable(&self) -> (ok: bool)
        ensures
            ok == self.data.fits(self.encoding),
    {
        self.data.can_encode(self.encoding)
    }

    /// The length of the header block, where `usize` can hold it.
    pub fn checked_header_len(&self) -> (len: Option<usize>)
        ensures
            len == if self.header().len() <= usize::MAX {
                Some(self.header().len() as usize)
            } else {
                None
            },
    {
        proof {
            self.lemma_header_len();
            lemma_fixed_texts();
        }
        let mut len: Option<usize> = checked_sum(Some(39), byte_len(self.name.as_str()));
        if let Some(filename) = self.filename() {
            len = checked_sum(checked_sum(len, 13), byte_len(filename));
        }
        len = checked_sum(checked_sum(len, 18), byte_len(self.content_type.as_str()));
        if let Some(encoding) = self.encoding() {
            len = checked_sum(checked_sum(len, 29), byte_len(encoding.to_str()));
        }
        checked_sum(len, 2)
    }

    /// The length of the part on the wire, where the length of the
    /// payload is known and `usize` can hold the sum.
    pub fn checked_size_hint(&self) -> (hint: Option<usize>)
        ensures
            hint == match self.spec_size_hint() {
                Some(n) => if n <= usize::MAX {
                    Some(n as usize)
                } else {
                    None
                },
                None => None,
            },
    {
        match self.data.len() {
            None => None,
            Some(raw) => {
                let data_len: Option<usize> = if let Some(Encoding::Base64) = self.encoding {
                    base64_size(raw)
                } else {
                    Some(raw)
                };
                match (data_len, self.checked_header_len()) {
                    (Some(data_len), Some(header_len)) => data_len.checked_add(header_len),
                    _ => None,
                }
            },
        }
    }

    /// The length of the part on the wire: `None` where the length of the
    /// payload is not known.
    pub fn size_hint(&self) -> (hint: Option<usize>)
        requires
            self.spec_size_hint() matches Some(n) ==> n <= usize::MAX,
        ensures
            match hint {
                Some(n) => self.spec_size_hint() == Some(n as nat),
                None => self.spec_size_hint() is None,
            },
    {
        match self.data.len() {
            None => None,
            Some(raw) => {
                let data_len: usize = if let Some(Encoding::Base64) = self.encoding {
                    raw / 3 * 4 + match raw % 3 {
                        0 => 0,
                        1 => 2,
                        _ => 3,
                    }
                } else {
                    raw
                };
                proof {
                    self.lemma_header_len();
                }
                let header_len: usize = self.header_len();
                Some(data_len + header_len)
            },
        }
    }

    /// The length of the header block, reckoned without building it.
    pub fn header_len(&self) -> (len: usize)
        requires
            self.spec_header_len() <= usize::MAX,
        ensures
            len == self.header().len(),
    {
        proof {
            self.lemma_header_len();
            lemma_fixed_texts();
        }
        let mut len: usize = 39 + self.name.as_str().len();
        if let Some(filename) = self.filename() {
            len += 13 + filename.len();
        }
        len += 2;
        len += 14 + self.content_type.as_str().len();
        len += 2;
        if let Some(encoding) = self.encoding() {
            len += 27 + encoding.to_str().len();
            len += 2;
        }
        len + 2
    }

    /// Appends the `Content-Disposition` line to `buf`.
    fn write_disposition(&self, buf: &mut Vec<u8>)
        ensures
            final(buf)@ == old(buf)@ + self.disposition(),
    {
        put(buf, "Content-Disposition: form-data; name=\"");
        put(buf, self.name.as_str());
        put(buf, "\"");
        if let Some(filename) = self.filename() {
            put(buf, "; filename=\"");
            put(buf, filename);
            put(buf, "\"");
        }
        put(buf, "\r\n");
        assert(buf@ =~= old(buf)@ + self.disposition());
    }

    /// Appends the `Content-Type` line to `buf`.
    fn write_type_line(&self, buf: &mut Vec<u8>)
        ensures
            final(buf)@ == old(buf)@ + self.type_line(),
    {
        put(buf, "Content-Type: ");
        put(buf, self.content_type.as_str());
        put(buf, "\r\n");
        assert(buf@ =~= old(buf)@ + self.type_line());
    }

    /// Appends the `Content-Transfer-Encoding` line to `buf`, where the
    /// part has an encoding.
    fn write_transfer_line(&self, buf: &mut Vec<u8>)
        ensures
            final(buf)@ == old(buf)@ + self.transfer_line(),
    {
        if let Some(encoding) = self.encoding() {
            put(buf, "Content-Transfer-Encoding: ");
            put(buf, encoding.to_str());
            put(buf, "\r\n");
        }
        assert(buf@ =~= old(buf)@ + self.transfer_line());
    }

    /// Appends the header block to `buf`.
    pub fn write_header(&self, buf: &mut Vec<u8>)
        ensures
            final(buf)@ == old(buf)@ + self.header(),
    {
        self.write_disposition(buf);
        self.write_type_line(buf);
        self.write_transfer_line(buf);
        put(buf, "\r\n");
        assert(buf@ =~= old(buf)@ + self.header());
    }

    /// The header block.
    pub fn header_bytes(&self) -> (header: Vec<u8>)
        ensures
            header@ == self.header(),
    {
        let mut header: Vec<u8> = Vec::new();
        self.write_header(&mut header);
        header
    }

    /// Puts the part behind what `body` holds: the header block as a
    /// segment of one chunk, then the payload.
    pub fn append_to(self, body: &mut Body, buf_size: Option<usize>)
        requires
            old(body).wf(),
            self.data.fits(self.encoding),
        ensures
            final(body).wf(),
            final(body).items() == old(body).items() + self.items(buf_size),
    {
        let header: Vec<u8> = self.header_bytes();
        proof {
            self.lemma_header_len();
        }
        let buf_size: Option<usize> = match buf_size {
            Some(n) => Some(n),
            None => self.data.len(),
        };
        body.append(ReaderStream::once(header));
        body.append(ReaderStream::new(self.data, buf_size, self.encoding));
    }

    /// The part as a stream of chunks: the header block first, then the
    /// payload, read `buf_size` bytes at a time and encoded read by read.
    pub fn into_stream(self, buf_size: Option<usize>) -> (body: Body)
        requires
            self.data.fits(self.encoding),
        ensures
            body.wf(),
            body.items() == self.items(buf_size),
    {
        let mut body: Body = Body::new();
        self.append_to(&mut body, buf_size);
        body
    }

    /// The part behind a reader's buffer. It delivers what the stream
    /// delivers.
    pub fn into_reader(self, buf_size: Option<usize>) -> (body: Body)
        requires
            self.data.fits(self.encoding),
        ensures
            body.wf(),
            body.items() == self.items(buf_size),
    {
        self.into_stream(buf_size)
    }

    /// Appends the bytes of a part that holds its payload in memory to
    /// `data`: the header block, then the encoded payload.
    pub fn extend(self, data: &mut Vec<u8>)
        requires
            self.data is Bytes,
            self.data.fits(self.encoding),
        ensures
            final(data)@ == old(data)@ + self.rendered(),
    {
        proof {
            self.lemma_items_whole();
            self.lemma_items_resolved(None);
        }
        let mut stream: Body = self.into_stream(None);
        let ghost all = stream.items();
        loop
            invariant
                stream.wf(),
                resolved(stream.items()),
                bytes_of(all) == self.rendered(),
                data@ + bytes_of(stream.items()) =~= old(data)@ + bytes_of(all),
            decreases stream.items().len(),
        {
            let ghost before = stream.items();
            match stream.poll_next(None) {
                Poll::Ready(Some(Ok(mut chunk))) => {
                    proof {
                        lemma_resolved_skip(before, 1);
                    }
                    data.append(&mut chunk);
                },
                _ => {
                    proof {
                        assert(before.len() > 0 ==> before[0] is Chunk);
                    }
                    return ;
                },
            }
        }
    }
}

} // verus!
