use http_client_multipart::encoding::base64_size;
use http_client_multipart::{nearest_multiple_of, Encoding};

#[test]
fn wire_names() {
    assert_eq!(Encoding::SevenBit.to_str(), "7bit");
    assert_eq!(Encoding::EightBit.to_str(), "8bit");
    assert_eq!(Encoding::Base64.to_str(), "base64");
    assert_eq!(Encoding::QuotedPrintable.to_str(), "quoted-printable");
}

#[test]
fn identity_encodings_leave_the_bytes() {
    let raw: Vec<u8> = vec![0, 1, 2, 0x7f, 0x80, 0xff, b'=', b'\r', b'\n'];
    let mut seven = raw.clone();
    Encoding::SevenBit.encode(&mut seven);
    assert_eq!(seven, raw);
    let mut eight = raw.clone();
    Encoding::EightBit.encode(&mut eight);
    assert_eq!(eight, raw);
}

#[test]
fn base64_of_whole_groups() {
    let mut data = b"Hello world!".to_vec();
    Encoding::Base64.encode(&mut data);
    assert_eq!(data, b"SGVsbG8gd29ybGQh".to_vec());
    let mut man = b"Man".to_vec();
    Encoding::Base64.encode(&mut man);
    assert_eq!(man, b"TWFu".to_vec());
}

#[test]
fn base64_has_no_padding() {
    let mut one = b"M".to_vec();
    Encoding::Base64.encode(&mut one);
    assert_eq!(one, b"TQ".to_vec());
    let mut two = b"Ma".to_vec();
    Encoding::Base64.encode(&mut two);
    assert_eq!(two, b"TWE".to_vec());
    let mut thirteen = b"Hello, world!".to_vec();
    Encoding::Base64.encode(&mut thirteen);
    assert_eq!(thirteen, b"SGVsbG8sIHdvcmxkIQ".to_vec());
}

#[test]
fn base64_uses_the_standard_alphabet() {
    // 0xfb 0xff 0xbf is the bit string 111110 111111 111110 111111.
    let mut data: Vec<u8> = vec![0xfb, 0xff, 0xbf];
    Encoding::Base64.encode(&mut data);
    assert_eq!(data, b"+/+/".to_vec());
    let mut zero: Vec<u8> = vec![0, 0, 0];
    Encoding::Base64.encode(&mut zero);
    assert_eq!(zero, b"AAAA".to_vec());
}

#[test]
fn base64_of_nothing_is_nothing() {
    let mut data: Vec<u8> = Vec::new();
    Encoding::Base64.encode(&mut data);
    assert!(data.is_empty());
}

#[test]
fn base64_joins_at_multiples_of_three() {
    let whole: Vec<u8> = (0u8..=200).collect();
    let mut expected = whole.clone();
    Encoding::Base64.encode(&mut expected);
    for cut in [0usize, 3, 6, 99, 198, 201] {
        let mut head = whole[..cut].to_vec();
        let mut rest = whole[cut..].to_vec();
        Encoding::Base64.encode(&mut head);
        Encoding::Base64.encode(&mut rest);
        head.extend(rest);
        assert_eq!(head, expected);
    }
}

#[test]
fn base64_does_not_join_inside_a_group() {
    let whole = b"Hello, world!".to_vec();
    let mut expected = whole.clone();
    Encoding::Base64.encode(&mut expected);
    let mut head = whole[..4].to_vec();
    let mut rest = whole[4..].to_vec();
    Encoding::Base64.encode(&mut head);
    Encoding::Base64.encode(&mut rest);
    head.extend(rest);
    assert_ne!(head, expected);
}

#[test]
fn base64_length_is_exact() {
    for n in 0usize..50 {
        let mut data: Vec<u8> = vec![7; n];
        Encoding::Base64.encode(&mut data);
        assert_eq!(Some(data.len()), base64_size(n));
        assert_eq!(data.len(), (4 * n + 2) / 3);
    }
    assert_eq!(base64_size(0), Some(0));
    assert_eq!(base64_size(1), Some(2));
    assert_eq!(base64_size(2), Some(3));
    assert_eq!(base64_size(3), Some(4));
    assert_eq!(base64_size(usize::MAX), None);
    assert_eq!(base64_size(usize::MAX / 4 * 3 + 2), Some(usize::MAX));
    assert_eq!(base64_size(usize::MAX / 4 * 3 + 3), None);
}

#[test]
fn base64_takes_what_fits() {
    assert!(Encoding::Base64.takes(0));
    assert!(Encoding::Base64.takes(usize::MAX / 4 * 3 + 2));
    assert!(!Encoding::Base64.takes(usize::MAX / 4 * 3 + 3));
    assert!(Encoding::QuotedPrintable.takes(usize::MAX));
    assert!(Encoding::SevenBit.takes(usize::MAX));
    assert!(Encoding::EightBit.takes(usize::MAX));
}

#[test]
fn quoted_printable_escapes_what_is_not_ascii() {
    let mut data = "hello, \u{20ac} zone!".as_bytes().to_vec();
    Encoding::QuotedPrintable.encode(&mut data);
    assert_eq!(data, b"hello, =E2=82=AC zone!".to_vec());
    let mut latin: Vec<u8> = vec![b'c', b'a', b'f', 0xe9];
    Encoding::QuotedPrintable.encode(&mut latin);
    assert_eq!(latin, b"caf=E9".to_vec());
}

#[test]
fn quoted_printable_escapes_the_equals_sign() {
    let mut data = b"a=b".to_vec();
    Encoding::QuotedPrintable.encode(&mut data);
    assert_eq!(data, b"a=3Db".to_vec());
}

#[test]
fn quoted_printable_breaks_long_lines() {
    let mut data: Vec<u8> = vec![b'x'; 100];
    Encoding::QuotedPrintable.encode(&mut data);
    assert!(data.len() > 100);
    assert!(data.windows(3).any(|w| w == b"=\r\n"));
}

#[test]
fn nearest_multiple_rounds_up() {
    assert_eq!(nearest_multiple_of(0, 3), 0);
    assert_eq!(nearest_multiple_of(1, 3), 3);
    assert_eq!(nearest_multiple_of(2, 3), 3);
    assert_eq!(nearest_multiple_of(3, 3), 3);
    assert_eq!(nearest_multiple_of(4, 3), 6);
    assert_eq!(nearest_multiple_of(8, 3), 9);
    assert_eq!(nearest_multiple_of(1024, 3), 1026);
    assert_eq!(nearest_multiple_of(7, 1), 7);
    assert_eq!(nearest_multiple_of(10, 4), 12);
    assert_eq!(nearest_multiple_of(usize::MAX - 1, 3), usize::MAX);
    assert_eq!(nearest_multiple_of(usize::MAX, 3), usize::MAX);
}

// The six bits that stand at place `j` of the bit string of `s`, which is
// continued with zero bits.
fn sextet(s: &[u8], j: usize) -> u8 {
    let at = |i: usize| -> u8 { s.get(i).copied().unwrap_or(0) };
    let k = 3 * (j / 4);
    match j % 4 {
        0 => at(k) / 4,
        1 => (at(k) % 4) * 16 + at(k + 1) / 16,
        2 => (at(k + 1) % 16) * 4 + at(k + 2) / 64,
        _ => at(k + 2) % 64,
    }
}

fn symbol(v: u8) -> u8 {
    if v < 26 {
        65 + v
    } else if v < 52 {
        71 + v
    } else if v < 62 {
        v - 4
    } else if v == 62 {
        43
    } else {
        47
    }
}

fn by_sextets(s: &[u8]) -> Vec<u8> {
    (0..(4 * s.len() + 2) / 3).map(|j| symbol(sextet(s, j))).collect()
}

#[test]
fn base64_is_the_alphabet_over_the_sextets() {
    for a in 0u8..=255 {
        let mut one = vec![a];
        Encoding::Base64.encode(&mut one);
        assert_eq!(one, by_sextets(&[a]));
        for b in (0u8..=255).step_by(5) {
            let mut two = vec![a, b];
            Encoding::Base64.encode(&mut two);
            assert_eq!(two, by_sextets(&[a, b]));
            let mut three = vec![b, a, b ^ 0xa5];
            Encoding::Base64.encode(&mut three);
            assert_eq!(three, by_sextets(&[b, a, b ^ 0xa5]));
        }
    }
    let long: Vec<u8> = (0u32..4099).map(|i| (i * i % 256) as u8).collect();
    for len in [4usize, 5, 6, 7, 63, 64, 65, 4097, 4098, 4099] {
        let mut data = long[..len].to_vec();
        Encoding::Base64.encode(&mut data);
        assert_eq!(data, by_sextets(&long[..len]));
    }
}
