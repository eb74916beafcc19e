//! Content transfer encodings and their wire form.

use base64::Engine;
use vstd::prelude::*;

verus! {

/// A content transfer encoding of a part's payload.
#[derive(Debug, Clone, Copy, PartialEq, Eq, Structural)]
pub enum Encoding {
    SevenBit,
    EightBit,
    Base64,
    QuotedPrintable,
}

/// Byte `i` of `s` as a number, zero beyond its end.
pub open spec fn octet(s: Seq<u8>, i: int) -> int {
    if 0 <= i < s.len() {
        s[i] as int
    } else {
        0
    }
}

/// The `j`-th group of six bits in the bit string of `s`, which is read
/// from the high bit of each byte down and continued with zero bits.
pub open spec fn sextet(s: Seq<u8>, j: int) -> int {
    let k = 3 * (j / 4);
    if j % 4 == 0 {
        octet(s, k) / 4
    } else if j % 4 == 1 {
        (octet(s, k) % 4) * 16 + octet(s, k + 1) / 16
    } else if j % 4 == 2 {
        (octet(s, k + 1) % 16) * 4 + octet(s, k + 2) / 64
    } else {
        octet(s, k + 2) % 64
    }
}

/// The character that stands for the six-bit value `v` in the standard
/// base64 alphabet: `A`-`Z`, `a`-`z`, `0`-`9`, `+`, `/`.
pub open spec fn base64_symbol(v: int) -> u8 {
    if v < 26 {
        (65 + v) as u8
    } else if v < 52 {
        (71 + v) as u8
    } else if v < 62 {
        (v - 4) as u8
    } else if v == 62 {
        43
    } else {
        47
    }
}

/// Length of the unpadded base64 form of `n` bytes: four characters for
/// every three bytes, two for a single byte left over, three for two.
pub open spec fn base64_len(n: nat) -> nat {
    ((4 * n + 2) / 3) as nat
}

/// Standard base64 without padding: one alphabet character for each group
/// of six bits that holds a bit of the input.
pub open spec fn base64_no_pad(s: Seq<u8>) -> Seq<u8> {
    Seq::new(base64_len(s.len()), |j: int| base64_symbol(sextet(s, j)))
}

/// What `quoted_printable::encode` returns for `input`.
pub uninterp spec fn quoted_printable_encoded(input: Seq<u8>) -> Seq<u8>;

/// `base64::Engine::encode` on the engine `STANDARD_NO_PAD`, as bytes.
///
/// Trusted: the result is the standard-alphabet base64 form of `input`
/// without padding. The engine panics when the encoded length does not
/// fit in `usize`; `requires` leaves those inputs out.
#[verifier::external_body]
fn base64_encode(input: &[u8]) -> (out: Vec<u8>)
    requires
        base64_len(input@.len()) <= usize::MAX,
    ensures
        out@ == base64_no_pad(input@),
{
    base64::engine::general_purpose::STANDARD_NO_PAD.encode(input).into_bytes()
}

/// `quoted_printable::encode`.
///
/// Trusted: the result depends on `input` alone. Nothing more is claimed
/// of it.
#[verifier::external_body]
fn quoted_printable_encode(input: &[u8]) -> (out: Vec<u8>)
    ensures
        out@ == quoted_printable_encoded(input@),
{
    quoted_printable::encode(input)
}

impl Encoding {
    /// The name of the encoding as it stands in a
    /// `Content-Transfer-Encoding` header.
    pub open spec fn wire_name(self) -> Seq<char> {
        match self {
            Encoding::SevenBit => "7bit"@,
            Encoding::EightBit => "8bit"@,
            Encoding::Base64 => "base64"@,
            Encoding::QuotedPrintable => "quoted-printable"@,
        }
    }

    /// The wire form of `input` under this encoding.
    pub open spec fn encoded(self, input: Seq<u8>) -> Seq<u8> {
        match self {
            Encoding::SevenBit | Encoding::EightBit => input,
            Encoding::Base64 => base64_no_pad(input),
            Encoding::QuotedPrintable => quoted_printable_encoded(input),
        }
    }

    /// Whether the encoder can take `n` bytes at once: the base64 form of
    /// the input must have a length that `usize` can hold.
    pub open spec fn accepts(self, n: nat) -> bool {
        self == Encoding::Base64 ==> base64_len(n) <= usize::MAX
    }

    /// Whether the encoder can take `n` bytes at once.
    pub fn takes(self, n: usize) -> (ok: bool)
        ensures
            ok == self.accepts(n as nat),
    {
        match self {
            Encoding::Base64 => n <= usize::MAX / 4 * 3 + 2,
            _ => true,
        }
    }

    pub fn to_str(self) -> (name: &'static str)
        ensures
            name@ == self.wire_name(),
    {
        match self {
            Encoding::SevenBit => "7bit",
            Encoding::EightBit => "8bit",
            Encoding::Base64 => "base64",
            Encoding::QuotedPrintable => "quoted-printable",
        }
    }

    /// Replaces `input` by its wire form.
    pub fn encode(self, input: &mut Vec<u8>)
        requires
            self.accepts(old(input)@.len()),
        ensures
            final(input)@ == self.encoded(old(input)@),
    {
        match self {
            Encoding::Base64 => {
                let out: Vec<u8> = base64_encode(input.as_slice());
                *input = out;
            },
            Encoding::QuotedPrintable => {
                let out: Vec<u8> = quoted_printable_encode(input.as_slice());
                *input = out;
            },
            Encoding::SevenBit | Encoding::EightBit => {},
        }
    }
}

/// The wire form of `input` under an optional encoding; without one the
/// bytes pass unchanged.
pub open spec fn transfer(encoding: Option<Encoding>, input: Seq<u8>) -> Seq<u8> {
    match encoding {
        Some(e) => e.encoded(input),
        None => input,
    }
}

/// The length of the unpadded base64 form of `n` bytes, where `usize` can
/// hold it.
pub fn base64_size(n: usize) -> (size: Option<usize>)
    ensures
        size == if base64_len(n as nat) <= usize::MAX {
            Some(base64_len(n as nat) as usize)
        } else {
            None
        },
{
    if n <= usize::MAX / 4 * 3 + 2 {
        let rest: usize = match n % 3 {
            0 => 0,
            1 => 2,
            _ => 3,
        };
        Some(n / 3 * 4 + rest)
    } else {
        None
    }
}

/// Base64 may be applied piecewise wherever a piece ends on a multiple of
/// three bytes: the encoding of `a + b` is the encoding of `a` followed by
/// the encoding of `b`.
pub proof fn lemma_base64_concat(a: Seq<u8>, b: Seq<u8>)
    requires
        a.len() % 3 == 0,
    ensures
        base64_no_pad(a + b) == base64_no_pad(a) + base64_no_pad(b),
{
    let whole = base64_no_pad(a + b);
    let parts = base64_no_pad(a) + base64_no_pad(b);
    let k = a.len() as int / 3;
    assert(a.len() == 3 * k);
    assert(base64_len(a.len()) == 4 * k);
    assert(base64_len((a + b).len()) == 4 * k + base64_len(b.len()));
    assert(whole.len() == parts.len());
    assert forall|j: int| 0 <= j < whole.len() implies whole[j] == parts[j] by {
        if j < 4 * k {
            let g = 3 * (j / 4);
            assert(g + 2 < a.len());
            assert(octet(a + b, g) == octet(a, g));
            assert(octet(a + b, g + 1) == octet(a, g + 1));
            assert(octet(a + b, g + 2) == octet(a, g + 2));
            assert(sextet(a + b, j) == sextet(a, j));
        } else {
            let i = j - 4 * k;
            let g = 3 * (i / 4);
            assert(j / 4 == i / 4 + k);
            assert(j % 4 == i % 4);
            assert(3 * (j / 4) == g + a.len());
            assert(octet(a + b, g + a.len()) == octet(b, g));
            assert(octet(a + b, g + a.len() + 1) == octet(b, g + 1));
            assert(octet(a + b, g + a.len() + 2) == octet(b, g + 2));
            assert(sextet(a + b, j) == sextet(b, i));
            assert(parts[j] == base64_no_pad(b)[i]);
        }
    }
    assert(whole =~= parts);
}

} // verus!
