use http_client_multipart::body::Body;
use http_client_multipart::content_type::{content_type, guessed_or_default};
use http_client_multipart::part::{file_label, filename, Part};
use http_client_multipart::reader_stream::Payload;
use http_client_multipart::stream::Poll;
use http_client_multipart::Encoding;

fn stream_output(body: &mut Body) -> Vec<u8> {
    let mut output: Vec<u8> = Vec::new();
    loop {
        match body.poll_next(None) {
            Poll::Ready(Some(chunk)) => output.extend(chunk.expect("stream chunk error")),
            Poll::Ready(None) => return output,
            Poll::Pending => panic!("a payload in memory asked for a read"),
        }
    }
}

fn reader_output(body: &mut Body, max: usize) -> Vec<u8> {
    let mut output: Vec<u8> = Vec::new();
    loop {
        match body.poll_read(None, max) {
            Poll::Ready(part) => {
                let part = part.expect("reader error");
                if part.is_empty() {
                    return output;
                }
                output.extend(part);
            }
            Poll::Pending => panic!("a payload in memory asked for a read"),
        }
    }
}

#[test]
fn test_stream_and_reader_same_output() {
    let value = "This is a test value";
    let part_for_stream = Part::text("test_field", value.as_bytes(), None);
    let part_for_reader = Part::text("test_field", value.as_bytes(), None);

    // Collect bytes from the stream implementation.
    let mut stream = part_for_stream.into_stream(Some(8));
    let stream_output = stream_output(&mut stream);

    // Collect bytes from the reader implementation.
    let mut reader = part_for_reader.into_reader(Some(8));
    let reader_output = reader_output(&mut reader, 32);

    assert_eq!(stream_output, reader_output);
    assert_eq!(
        stream_output,
        b"Content-Disposition: form-data; name=\"test_field\"\r\nContent-Type: text/plain\r\n\r\nThis is a test value".to_vec()
    );
}

#[test]
fn test_part_size_hint_no_encoding() {
    let part = Part::text("field", "Hello world!".as_bytes(), None);
    let expected_size = part.size_hint().unwrap();
    let mut buf = Vec::new();
    part.extend(&mut buf);
    assert_eq!(expected_size, buf.len());
    assert_eq!(expected_size, 86);
}

#[test]
fn test_part_size_hint_base64_encoding() {
    let part = Part::text("field_base64", "Hello world!".as_bytes(), Some(Encoding::Base64));
    let expected_size = part.size_hint().unwrap();
    let mut buf = Vec::new();
    part.extend(&mut buf);
    assert_eq!(expected_size, buf.len());
    assert_eq!(expected_size, 132);
}

#[test]
fn size_hint_under_base64_counts_the_last_group() {
    for (value, payload) in [("", 0usize), ("a", 2), ("ab", 3), ("abc", 4), ("abcd", 6)] {
        let part = Part::text("f", value.as_bytes(), Some(Encoding::Base64));
        let header = part.header_len();
        assert_eq!(part.size_hint(), Some(header + payload));
        assert_eq!(part.checked_size_hint(), Some(header + payload));
        let mut buf = Vec::new();
        part.extend(&mut buf);
        assert_eq!(buf.len(), header + payload);
    }
}

#[test]
fn size_hint_takes_quoted_printable_for_as_long_as_the_payload() {
    let plain = Part::text("f", b"plain text", Some(Encoding::QuotedPrintable));
    let hint = plain.size_hint().unwrap();
    let mut buf = Vec::new();
    plain.extend(&mut buf);
    assert_eq!(hint, buf.len());

    let escaped = Part::text("f", &[0xe9, 0xe9], Some(Encoding::QuotedPrintable));
    let header = escaped.header_len();
    assert_eq!(escaped.size_hint(), Some(header + 2));
    let mut buf = Vec::new();
    escaped.extend(&mut buf);
    assert_eq!(buf.len(), header + 6);
}

#[test]
fn size_hint_of_an_outside_source() {
    let known = Part::file_raw_async("f", "a.bin", "application/octet-stream".to_string(), None, 0, Some(10));
    assert_eq!(known.size_hint(), Some(known.header_len() + 10));
    let inflated = Part::file_raw_async(
        "f",
        "a.bin",
        "application/octet-stream".to_string(),
        Some(Encoding::Base64),
        0,
        Some(10),
    );
    assert_eq!(inflated.size_hint(), Some(inflated.header_len() + 14));
    let unknown = Part::file_raw_async("f", "a.bin", "application/octet-stream".to_string(), None, 0, None);
    assert_eq!(unknown.size_hint(), None);
    assert_eq!(unknown.checked_size_hint(), None);
}

#[test]
fn header_of_a_text_part() {
    let part = Part::text("field1", b"value1", None);
    assert_eq!(
        part.header_bytes(),
        b"Content-Disposition: form-data; name=\"field1\"\r\nContent-Type: text/plain\r\n\r\n"
            .to_vec()
    );
    assert_eq!(part.header_len(), part.header_bytes().len());
    assert_eq!(part.header_len(), 75);
    assert_eq!(part.checked_header_len(), Some(75));
    assert_eq!(part.filename(), None);
    assert_eq!(part.encoding(), None);
}

#[test]
fn header_of_a_file_part() {
    let part = Part::file_raw(
        "upload",
        "photo.png",
        "image/png".to_string(),
        Some(Encoding::Base64),
        vec![1, 2, 3],
    );
    assert_eq!(
        part.header_bytes(),
        b"Content-Disposition: form-data; name=\"upload\"; filename=\"photo.png\"\r\nContent-Type: image/png\r\nContent-Transfer-Encoding: base64\r\n\r\n"
            .to_vec()
    );
    assert_eq!(part.header_len(), part.header_bytes().len());
    assert_eq!(part.filename(), Some("photo.png"));
    assert_eq!(part.encoding(), Some(Encoding::Base64));
}

#[test]
fn header_length_for_every_encoding() {
    for encoding in [
        None,
        Some(Encoding::SevenBit),
        Some(Encoding::EightBit),
        Some(Encoding::Base64),
        Some(Encoding::QuotedPrintable),
    ] {
        let text = Part::text("n\u{e4}me", b"", encoding);
        assert_eq!(text.header_len(), text.header_bytes().len());
        assert_eq!(text.checked_header_len(), Some(text.header_bytes().len()));
        let file = Part::file_raw("n", "f\u{20ac}.txt", "text/plain".to_string(), encoding, Vec::new());
        assert_eq!(file.header_len(), file.header_bytes().len());
    }
}

#[test]
fn write_header_appends() {
    let part = Part::text("a", b"", Some(Encoding::SevenBit));
    let mut buf = b"before".to_vec();
    part.write_header(&mut buf);
    assert_eq!(
        buf,
        b"beforeContent-Disposition: form-data; name=\"a\"\r\nContent-Type: text/plain\r\nContent-Transfer-Encoding: 7bit\r\n\r\n"
            .to_vec()
    );
}

#[test]
fn extend_appends_header_and_encoded_payload() {
    let part = Part::text("a", b"Hello, world!", Some(Encoding::Base64));
    let mut buf = b"--b\r\n".to_vec();
    part.extend(&mut buf);
    assert_eq!(
        buf,
        b"--b\r\nContent-Disposition: form-data; name=\"a\"\r\nContent-Type: text/plain\r\nContent-Transfer-Encoding: base64\r\n\r\nSGVsbG8sIHdvcmxkIQ"
            .to_vec()
    );
}

#[test]
fn extend_of_an_empty_payload_is_the_header() {
    for encoding in [None, Some(Encoding::Base64), Some(Encoding::QuotedPrintable)] {
        let part = Part::text("a", b"", encoding);
        let header = part.header_bytes();
        let mut buf = Vec::new();
        part.extend(&mut buf);
        assert_eq!(buf, header);
    }
}

#[test]
fn the_stream_of_a_part_begins_with_its_header() {
    let part = Part::text("a", b"0123456789", None);
    let header = part.header_bytes();
    let mut stream = part.into_stream(Some(4));
    let chunks = stream_chunks(&mut stream);
    assert_eq!(
        chunks,
        vec![header, b"0123".to_vec(), b"4567".to_vec(), b"89".to_vec()]
    );
}

fn stream_chunks(body: &mut Body) -> Vec<Vec<u8>> {
    let mut chunks: Vec<Vec<u8>> = Vec::new();
    loop {
        match body.poll_next(None) {
            Poll::Ready(Some(chunk)) => chunks.push(chunk.expect("stream chunk error")),
            Poll::Ready(None) => return chunks,
            Poll::Pending => panic!("a payload in memory asked for a read"),
        }
    }
}

#[test]
fn without_a_size_a_payload_in_memory_is_read_in_one_piece() {
    let payload: Vec<u8> = vec![b'x'; 5000];
    let part = Part::text("a", &payload, None);
    let mut stream = part.into_stream(None);
    let chunks = stream_chunks(&mut stream);
    assert_eq!(chunks.len(), 2);
    assert_eq!(chunks[1], payload);
}

#[test]
fn a_quoted_printable_file_part_escapes_its_bytes() {
    let part = Part::file_raw(
        "doc",
        "note.txt",
        "text/plain".to_string(),
        Some(Encoding::QuotedPrintable),
        vec![b'n', b'a', 0xef, b'v', b'e'],
    );
    let mut buf = Vec::new();
    part.extend(&mut buf);
    let text = String::from_utf8(buf).unwrap();
    assert!(text.contains("Content-Transfer-Encoding: quoted-printable\r\n"));
    assert!(text.ends_with("\r\n\r\nna=EFve"));
}

#[test]
fn a_part_over_a_file_goes_by_its_path() {
    let part = Part::file_async("filefield", "./examples/file.txt", Some(Encoding::Base64), 3, 13);
    assert_eq!(part.name, "filefield");
    assert_eq!(part.filename(), Some("file.txt"));
    assert_eq!(part.content_type, "text/plain");
    assert_eq!(part.encoding(), Some(Encoding::Base64));
    assert!(matches!(part.data, Payload::Reader { key: 3, len: Some(13) }));
    assert!(part.is_encodable());
}

#[test]
fn file_names_of_paths() {
    assert_eq!(filename("./examples/file.txt"), "file.txt");
    assert_eq!(filename("Cargo.toml"), "Cargo.toml");
    assert_eq!(filename("a/b/"), "b");
    assert_eq!(filename(".."), "file");
    assert_eq!(filename("/"), "file");
    assert_eq!(filename(""), "file");
    assert_eq!(file_label(Some("x.bin".to_string())), "x.bin");
    assert_eq!(file_label(None), "file");
}

#[test]
fn media_types_of_paths() {
    assert_eq!(content_type("photo.png"), "image/png");
    assert_eq!(content_type("dir/page.HTML"), "text/html");
    assert_eq!(content_type("notes.txt"), "text/plain");
    assert_eq!(content_type("no_extension"), "application/octet-stream");
    assert_eq!(content_type("what.isthisextension"), "application/octet-stream");
    assert_eq!(guessed_or_default(Some("image/gif".to_string())), "image/gif");
    assert_eq!(guessed_or_default(None), "application/octet-stream");
}

#[test]
fn constructors_keep_what_they_are_given() {
    let text = Part::text("t", b"v", Some(Encoding::EightBit));
    assert_eq!(text.name, "t");
    assert_eq!(text.content_type, "text/plain");
    assert_eq!(text.file_data, None);
    assert_eq!(text.encoding, Some(Encoding::EightBit));
    assert!(matches!(&text.data, Payload::Bytes(data) if data == b"v"));

    let file = Part::file_raw("f", "n.bin", "application/x-thing".to_string(), None, vec![9]);
    assert_eq!(file.name, "f");
    assert_eq!(file.content_type, "application/x-thing");
    assert_eq!(file.file_data, Some("n.bin".to_string()));
    assert_eq!(file.encoding, None);
    assert!(matches!(&file.data, Payload::Bytes(data) if data == &[9u8]));

    let reader = Part::file_raw_async("r", "n.bin", "a/b".to_string(), None, 7, Some(2));
    assert_eq!(reader.file_data, Some("n.bin".to_string()));
    assert!(matches!(reader.data, Payload::Reader { key: 7, len: Some(2) }));
}
