use http_client_multipart::body::Body;
use http_client_multipart::content_type::parse_content_type;
use http_client_multipart::part::Part;
use http_client_multipart::reader_stream::Payload;
use http_client_multipart::stream::Poll;
use http_client_multipart::{generate_boundary, Encoding, Error, Multipart, StreamChunk};

// A form with a fixed boundary and two text fields.
fn create_multipart() -> Multipart {
    let mut m = Multipart::new();
    // Override the randomly generated boundary for consistency in tests.
    m.boundary = "test-boundary".into();
    m.add_text("field1", "value1");
    m.add_text("field2", "value2");
    m
}

// Takes every chunk of the stream, with the reads of outside sources
// served from `sources` by key.
fn drive(body: &mut Body, sources: &[&[u8]]) -> Vec<Vec<u8>> {
    let mut taken: Vec<usize> = vec![0; sources.len()];
    let mut chunks: Vec<Vec<u8>> = Vec::new();
    let mut report: Option<StreamChunk> = None;
    loop {
        match body.poll_next(report.take()) {
            Poll::Ready(Some(chunk)) => chunks.push(chunk.expect("stream chunk error")),
            Poll::Ready(None) => return chunks,
            Poll::Pending => {
                let (key, max) = body.awaited().expect("no read is awaited");
                let from = taken[key];
                let n = max.min(sources[key].len() - from);
                taken[key] = from + n;
                report = Some(Ok(sources[key][from..from + n].to_vec()));
            }
        }
    }
}

fn read_all(body: &mut Body, max: usize) -> Vec<u8> {
    let mut output: Vec<u8> = Vec::new();
    loop {
        match body.poll_read(None, max) {
            Poll::Ready(part) => {
                let part = part.expect("reader error");
                if part.is_empty() {
                    return output;
                }
                output.extend(part);
            }
            Poll::Pending => panic!("a payload in memory asked for a read"),
        }
    }
}

fn count(haystack: &[u8], needle: &[u8]) -> usize {
    haystack.windows(needle.len()).filter(|w| *w == needle).count()
}

#[test]
fn test_multipart_text() {
    let mut multipart = Multipart::new();
    multipart.add_text("name", "John Doe");
    multipart.add_text("age", "42");

    let content_type = multipart.content_type();
    assert!(content_type.starts_with("multipart/form-data; boundary="));
    assert_eq!(content_type.len(), "multipart/form-data; boundary=".len() + 30);

    let body = String::from_utf8(multipart.into_bytes()).unwrap();
    assert!(body.contains("John Doe"));
    assert!(body.contains("42"));
}

#[test]
fn test_multipart_file() {
    let file: &[u8] = b"[package]\nname = \"demo\"\n";
    let mut multipart = Multipart::new();
    multipart.add_file("avatar", "Cargo.toml", None, 0, file.len());

    let content_type = multipart.content_type();
    assert!(content_type.starts_with("multipart/form-data; boundary="));
    assert_eq!(multipart.size_hint().is_some(), true);
    let hint = multipart.size_hint().unwrap();

    let mut stream = multipart.into_stream(None);
    let body = drive(&mut stream, &[file]).concat();
    assert_eq!(body.len(), hint);
    let body = String::from_utf8(body).unwrap();
    assert!(body.contains("[package]"));
    assert!(body.contains("filename=\"Cargo.toml\""));
}

#[test]
fn test_multipart_mixed() {
    let file: &[u8] = b"[package]\nname = \"demo\"\n";
    let mut multipart = Multipart::new();
    multipart.add_text("name", "John Doe");
    multipart.add_file("avatar", "Cargo.toml", None, 0, file.len());

    let content_type = multipart.content_type();
    assert!(content_type.starts_with("multipart/form-data; boundary="));

    let mut stream = multipart.into_stream(None);
    let body = String::from_utf8(drive(&mut stream, &[file]).concat()).unwrap();
    assert!(body.contains("John Doe"));
    assert!(body.contains("[package]"));
}

#[test]
fn test_stream_and_reader_equivalence() {
    // Create two identical Multipart instances.
    let m_stream = create_multipart();
    let m_reader = create_multipart();

    // Collect output from the stream implementation.
    let mut stream = m_stream.into_stream(Some(8));
    let stream_output: Vec<u8> = drive(&mut stream, &[]).concat();

    // Collect output from the reader implementation.
    let mut reader = m_reader.into_reader(Some(8));
    let reader_output = read_all(&mut reader, 32);

    // Compare both outputs.
    assert_eq!(stream_output, reader_output);
    assert_eq!(stream_output, create_multipart().into_bytes());
}

#[test]
fn test_file_and_text_equivalence() {
    // The content of the file.
    let content = "Hello, world!";
    let file_path = "./examples/file.txt";

    // A form that takes the file as an outside source, under base64.
    let mut m_file = Multipart::new();
    m_file.boundary = "test-boundary".into();
    m_file.add_file("filefield", file_path, Some(Encoding::Base64), 0, content.len());

    // A form that holds the content in memory, with the media type
    // 'text/plain' and under base64.
    let mut m_text = Multipart::new();
    m_text.boundary = "test-boundary".into();
    m_text
        .add_file_bytes(
            "filefield",
            "file.txt",
            content.as_bytes(),
            "text/plain",
            Some(Encoding::Base64),
        )
        .unwrap();

    assert_eq!(m_file.size_hint(), m_text.size_hint());

    // Convert both multipart forms to bytes.
    let mut stream = m_file.into_stream(None);
    let bytes_file = drive(&mut stream, &[content.as_bytes()]).concat();
    let bytes_text = m_text.into_bytes();

    // Assert that both outputs are identical.
    assert_eq!(
        String::from_utf8_lossy(&bytes_file),
        String::from_utf8_lossy(&bytes_text)
    );
}

#[test]
fn test_multipart_size_hint() {
    let mut multipart = Multipart::new();
    multipart.boundary = "test-boundary".into();
    multipart.add_text("field", "Hello multipart!");
    let expected_size = multipart.size_hint().unwrap();

    let buf = multipart.into_bytes();
    assert_eq!(expected_size, buf.len());
    assert_eq!(expected_size, 128);
}

#[test]
fn two_text_fields_as_one_buffer() {
    let bytes = create_multipart().into_bytes();
    assert_eq!(
        bytes,
        b"--test-boundary\r\nContent-Disposition: form-data; name=\"field1\"\r\nContent-Type: text/plain\r\n\r\nvalue1\r\n--test-boundary\r\nContent-Disposition: form-data; name=\"field2\"\r\nContent-Type: text/plain\r\n\r\nvalue2\r\n--test-boundary--\r\n"
            .to_vec()
    );
    assert!(bytes.starts_with(
        b"--test-boundary\r\nContent-Disposition: form-data; name=\"field1\"\r\nContent-Type: text/plain\r\n\r\nvalue1\r\n"
    ));
    assert!(bytes.ends_with(b"--test-boundary--\r\n"));
    assert_eq!(count(&bytes, b"field1"), 1);
    assert_eq!(count(&bytes, b"value1"), 1);
    assert_eq!(count(&bytes, b"field2"), 1);
    assert_eq!(count(&bytes, b"value2"), 1);
}

#[test]
fn two_text_fields_as_chunks() {
    let mut stream = create_multipart().into_stream(Some(4));
    let chunks = drive(&mut stream, &[]);
    let expected: Vec<Vec<u8>> = vec![
        b"--test-boundary\r\n".to_vec(),
        b"Content-Disposition: form-data; name=\"field1\"\r\nContent-Type: text/plain\r\n\r\n".to_vec(),
        b"valu".to_vec(),
        b"e1".to_vec(),
        b"\r\n--test-boundary\r\n".to_vec(),
        b"Content-Disposition: form-data; name=\"field2\"\r\nContent-Type: text/plain\r\n\r\n".to_vec(),
        b"valu".to_vec(),
        b"e2".to_vec(),
        b"\r\n--test-boundary--\r\n".to_vec(),
    ];
    assert_eq!(chunks, expected);
}

#[test]
fn a_form_without_parts_streams_nothing() {
    let mut stream = Multipart::with_boundary("b").into_stream(Some(8));
    assert!(stream.is_terminated());
    assert!(drive(&mut stream, &[]).is_empty());
    let mut reader = Multipart::with_boundary("b").into_reader(Some(8));
    assert!(read_all(&mut reader, 16).is_empty());
    let collected = Multipart::with_boundary("b").into_stream(None).collect();
    assert!(collected.is_empty());
}

#[test]
fn a_form_without_parts_as_one_buffer_is_the_closing_line() {
    let form = Multipart::with_boundary("b");
    assert_eq!(form.size_hint(), Some(7));
    assert_eq!(form.into_bytes(), b"--b--\r\n".to_vec());
}

#[test]
fn the_three_renderings_carry_the_same_bytes() {
    let build = || {
        let mut m = Multipart::with_boundary("XyZ");
        m.add_text("plain", "some text");
        m.add_enc_text("b64", "Hello, world! And more than that.", Encoding::Base64);
        m.add_enc_text("seven", "seven bits", Encoding::SevenBit);
        m.add_file_bytes("bin", "a.bin", &[0, 1, 2, 3, 4, 5, 6, 7, 8, 9, 10], "application/octet-stream", Some(Encoding::Base64))
            .unwrap();
        m.add_text("empty", "");
        m
    };
    let bytes = build().into_bytes();
    assert_eq!(build().size_hint(), Some(bytes.len()));
    for size in [None, Some(1usize), Some(2), Some(3), Some(8), Some(1000)] {
        let mut stream = build().into_stream(size);
        assert_eq!(drive(&mut stream, &[]).concat(), bytes);
        assert_eq!(build().into_stream(size).collect().concat(), bytes);
        for max in [1usize, 7, 64, 4096] {
            let mut reader = build().into_reader(size);
            assert_eq!(read_all(&mut reader, max), bytes);
            assert_eq!(build().into_reader(size).read_to_end(max), bytes);
        }
    }
}

#[test]
fn quoted_printable_at_the_default_size_is_the_buffer() {
    let build = || {
        let mut m = Multipart::with_boundary("q");
        m.add_enc_text("t", "caf\u{e9} = coffee", Encoding::QuotedPrintable);
        m
    };
    let bytes = build().into_bytes();
    let mut stream = build().into_stream(None);
    assert_eq!(drive(&mut stream, &[]).concat(), bytes);
    assert!(String::from_utf8(bytes).unwrap().contains("caf=C3=A9 =3D coffee"));
}

#[test]
fn the_size_hint_is_short_where_quoted_printable_escapes() {
    let mut m = Multipart::with_boundary("q");
    m.add_enc_text("t", "caf\u{e9}", Encoding::QuotedPrintable);
    let hint = m.size_hint().unwrap();
    let bytes = m.into_bytes();
    // The two bytes of the letter go out as six.
    assert_eq!(bytes.len(), hint + 4);
}

#[test]
fn parts_go_out_in_the_order_in_which_they_came() {
    let mut m = Multipart::with_boundary("o");
    for name in ["c", "a", "b", "a"] {
        m.add_text(name, name);
    }
    let text = String::from_utf8(m.into_bytes()).unwrap();
    let places: Vec<usize> = text.match_indices("name=\"").map(|(at, _)| at).collect();
    assert_eq!(places.len(), 4);
    let names: Vec<&str> = places.iter().map(|at| &text[at + 6..at + 7]).collect();
    assert_eq!(names, vec!["c", "a", "b", "a"]);
}

#[test]
fn outside_sources_are_read_in_their_turn() {
    let first: &[u8] = b"first source, a little longer than a read";
    let second: &[u8] = b"second";
    let build = |as_readers: bool| {
        let mut m = Multipart::with_boundary("r");
        m.add_text("t", "text");
        if as_readers {
            m.add_async_read("one", "1.txt", "text/plain", Some(Encoding::Base64), 1, None).unwrap();
            m.add_async_read("two", "2.txt", "text/plain", None, 0, Some(second.len())).unwrap();
        } else {
            m.add_sync_read("one", "1.txt", "text/plain", Some(Encoding::Base64), first.to_vec()).unwrap();
            m.add_sync_read("two", "2.txt", "text/plain", None, second.to_vec()).unwrap();
        }
        m
    };
    assert!(!build(true).is_resolved());
    assert!(build(false).is_resolved());
    assert_eq!(build(true).size_hint(), None);
    assert!(!build(true).is_sized());
    let expected = build(false).into_bytes();
    for size in [None, Some(1usize), Some(5), Some(9), Some(100)] {
        let mut stream = build(true).into_stream(size);
        assert_eq!(drive(&mut stream, &[second, first]).concat(), expected);
    }
}

#[test]
fn a_failed_read_ends_the_body() {
    let mut m = Multipart::with_boundary("r");
    m.add_async_read("one", "1.txt", "text/plain", None, 0, None).unwrap();
    m.add_text("t", "text");
    let mut stream = m.into_stream(Some(4));
    assert!(matches!(stream.poll_next(None), Poll::Ready(Some(Ok(_)))));
    assert!(matches!(stream.poll_next(None), Poll::Ready(Some(Ok(_)))));
    assert!(matches!(stream.poll_next(None), Poll::Pending));
    assert_eq!(stream.awaited(), Some((0, 4)));
    let failure: StreamChunk = Err(std::io::Error::new(std::io::ErrorKind::BrokenPipe, "gone"));
    match stream.poll_next(Some(failure)) {
        Poll::Ready(Some(Err(e))) => assert_eq!(e.kind(), std::io::ErrorKind::BrokenPipe),
        _ => panic!("the failure was not passed on"),
    }
    assert!(stream.is_terminated());
    assert!(matches!(stream.poll_next(None), Poll::Ready(None)));
}

#[test]
fn a_media_type_that_is_none_is_refused() {
    let mut m = Multipart::with_boundary("e");
    m.add_text("kept", "v");
    assert_eq!(m.add_text_mime("a", "b", "not a media type"), Err(Error::InvalidContentType));
    assert_eq!(
        m.add_file_bytes("a", "f", b"x", "", None),
        Err(Error::InvalidContentType)
    );
    assert_eq!(
        m.add_sync_read("a", "f", "/plain", None, vec![1]),
        Err(Error::InvalidContentType)
    );
    assert_eq!(
        m.add_async_read("a", "f", "text", None, 0, None),
        Err(Error::InvalidContentType)
    );
    assert_eq!(m.fields.len(), 1);
    assert_eq!(m.boundary, "e");
    assert_eq!(Error::InvalidContentType.message(), "invalid content type");
    assert_eq!(parse_content_type("bad"), Err(Error::InvalidContentType));
}

#[test]
fn a_media_type_goes_into_the_header_by_its_essence() {
    assert_eq!(parse_content_type("text/html"), Ok("text/html".to_string()));
    assert_eq!(parse_content_type("text/plain; charset=utf-8"), Ok("text/plain".to_string()));
    assert_eq!(parse_content_type("IMAGE/PNG"), Ok("image/png".to_string()));
    let mut m = Multipart::with_boundary("e");
    m.add_text_mime("a", "<p>", "text/html; charset=utf-8").unwrap();
    assert_eq!(
        m.into_bytes(),
        b"--e\r\nContent-Disposition: form-data; name=\"a\"\r\nContent-Type: text/html\r\n\r\n<p>\r\n--e--\r\n"
            .to_vec()
    );
}

#[test]
fn typed_parts_take_the_media_type_or_hand_on_the_error() {
    let mut m = Multipart::with_boundary("e");
    assert_eq!(m.add_text_typed("a", "v", Ok("text/css".to_string())), Ok(()));
    assert_eq!(m.add_text_typed("b", "v", Err(Error::InvalidContentType)), Err(Error::InvalidContentType));
    assert_eq!(
        m.add_file_typed("c", "c.bin", Payload::Bytes(vec![1]), Ok("a/b".to_string()), Some(Encoding::EightBit)),
        Ok(())
    );
    assert_eq!(
        m.add_file_typed("d", "d.bin", Payload::Bytes(vec![1]), Err(Error::InvalidContentType), None),
        Err(Error::InvalidContentType)
    );
    assert_eq!(m.fields.len(), 2);
    assert_eq!(m.fields[0].content_type, "text/css");
    assert_eq!(m.fields[0].file_data, None);
    assert_eq!(m.fields[1].content_type, "a/b");
    assert_eq!(m.fields[1].file_data, Some("c.bin".to_string()));
    assert_eq!(m.fields[1].encoding, Some(Encoding::EightBit));
}

#[test]
fn add_part_appends() {
    let mut m = Multipart::with_boundary("p");
    m.add_part(Part::text("x", b"1", None));
    m.add_part(Part::file_raw("y", "y.txt", "text/plain".to_string(), None, b"2".to_vec()));
    assert_eq!(m.fields.len(), 2);
    assert_eq!(m.fields[0].name, "x");
    assert_eq!(m.fields[1].name, "y");
    assert!(m.is_encodable());
    assert!(m.is_resolved());
    assert!(m.is_sized());
}

#[test]
fn size_hint_sums_the_parts_and_the_boundary_lines() {
    let mut m = Multipart::with_boundary("0123456789");
    assert_eq!(m.size_hint(), Some(16));
    m.add_text("a", "xyz");
    // A boundary line of 14 bytes, a header of 70, the value, the end of
    // the line, and the closing line of 16.
    assert_eq!(m.size_hint(), Some(14 + 70 + 3 + 2 + 16));
    m.add_enc_text("b", "xyzw", Encoding::Base64);
    assert_eq!(m.size_hint(), Some(105 + 14 + 105 + 6 + 2));
    assert_eq!(m.checked_size_hint(), m.size_hint());
    let hint = m.size_hint().unwrap();
    assert_eq!(m.into_bytes().len(), hint);
}

#[test]
fn a_new_form_has_a_boundary_of_thirty_letters_and_digits() {
    let form = Multipart::new();
    assert!(form.fields.is_empty());
    assert_eq!(form.boundary.len(), 30);
    assert!(form.boundary.chars().all(|c| c.is_ascii_alphanumeric()));
    let boundary = generate_boundary();
    assert_eq!(boundary.chars().count(), 30);
    assert!(boundary.chars().all(|c| c.is_ascii_alphanumeric()));
    assert_ne!(generate_boundary(), generate_boundary());
}

#[test]
fn the_content_type_names_the_boundary() {
    let form = Multipart::with_boundary("test-boundary");
    assert_eq!(form.content_type(), "multipart/form-data; boundary=test-boundary");
}
