use vstd::prelude::*;
use vstd::string::*;
use vstd::utf8::*;

use crate::text::{
    chars_of, decimal, decimal_chars, digits_value, lemma_digits_grow, is_digit, push_all, starts_with,
    string_of_all, trim, trim_range, all_digits,
};

verus! {

broadcast use vstd::utf8::encode_utf8_valid_utf8;

/// Largest message body a frame may declare, in bytes.
pub const MAX_LSP_PAYLOAD_BYTES: usize = 16777216;

/// Why a frame could not be read. Each ends the reading of that session's output.
#[derive(Clone, Copy, Debug, PartialEq, Eq)]
pub enum FrameError {
    /// A header line is not valid UTF-8.
    HeaderNotText,
    /// A `Content-Length` header whose value is not a non-negative integer.
    InvalidLength,
    /// The header block ended without a `Content-Length` header.
    MissingLength,
    /// The declared length is above the maximum.
    TooLarge(usize),
}

/// The header that precedes a body of `n` bytes.
pub open spec fn header_text(n: nat) -> Seq<char> {
    "Content-Length: "@ + decimal(n) + "\r\n\r\n"@
}

/// A frame: the header, then the payload's bytes unchanged.
pub open spec fn frame_bytes(payload: Seq<char>) -> Seq<u8> {
    encode_utf8(header_text(encode_utf8(payload).len())) + encode_utf8(payload)
}

/// The number that `s` spells in decimal, with an optional leading `+`.
pub open spec fn parse_unsigned(s: Seq<char>) -> Option<nat> {
    let digits = if s.len() > 0 && s[0] == '+' {
        s.drop_first()
    } else {
        s
    };
    if digits.len() > 0 && all_digits(digits) {
        Some(digits_value(digits))
    } else {
        None
    }
}

/// A line that ends the header block.
pub open spec fn is_blank_line(line: Seq<u8>) -> bool {
    line == seq![10u8] || line == seq![13u8, 10u8]
}

/// What a header line that does not end the block says: `Some(n)` for a
/// `Content-Length` header of `n`, `None` for any other header.
pub open spec fn header_effect(line: Seq<u8>) -> Result<Option<usize>, FrameError> {
    if !valid_utf8(line) {
        Err(FrameError::HeaderNotText)
    } else {
        let t = trim(decode_utf8(line));
        let key = "Content-Length:"@;
        if starts_with(t, key) {
            match parse_unsigned(trim(t.subrange(key.len() as int, t.len() as int))) {
                Some(n) => if n <= usize::MAX {
                    Ok(Some(n as usize))
                } else {
                    Err(FrameError::InvalidLength)
                },
                None => Err(FrameError::InvalidLength),
            }
        } else {
            Ok(None)
        }
    }
}

/// What the end of a header block decides, given the declared length.
pub open spec fn block_end(content_length: Option<usize>) -> Result<HeaderStep, FrameError> {
    match content_length {
        None => Err(FrameError::MissingLength),
        Some(n) => if n > MAX_LSP_PAYLOAD_BYTES {
            Err(FrameError::TooLarge(n))
        } else {
            Ok(HeaderStep::Body(n))
        },
    }
}

/// What a frame reader does after a header line.
#[derive(Clone, Copy, Debug, PartialEq, Eq)]
pub enum HeaderStep {
    /// Read the next header line.
    Continue,
    /// The header block is complete: read exactly this many body bytes.
    Body(usize),
    /// The stream ended before a frame began: reading is over, with no error.
    End,
}

/// Reads the header block of a frame one line at a time.
pub struct FrameReader {
    /// The length declared so far in this header block.
    pub content_length: Option<usize>,
}

impl FrameReader {
    pub fn new() -> (r: Self)
        ensures
            r.content_length is None,
    {
        FrameReader { content_length: None }
    }

    /// Takes one line as read from the stream, with its line terminator; an empty
    /// line stands for the end of the stream. The last `Content-Length` header of
    /// a block counts. A length above the maximum fails at the end of the header
    /// block, before any body byte is read.
    pub fn on_header_line(&mut self, line: &[u8]) -> (r: Result<HeaderStep, FrameError>)
        ensures
            line@.len() == 0 ==> r == Ok::<HeaderStep, FrameError>(HeaderStep::End)
                && final(self).content_length == old(self).content_length,
            is_blank_line(line@) ==> r == block_end(old(self).content_length)
                && final(self).content_length is None,
            line@.len() > 0 && !is_blank_line(line@) ==> match header_effect(line@) {
                Err(e) => r == Err::<HeaderStep, FrameError>(e),
                Ok(None) => r == Ok::<HeaderStep, FrameError>(HeaderStep::Continue)
                    && final(self).content_length == old(self).content_length,
                Ok(Some(n)) => r == Ok::<HeaderStep, FrameError>(HeaderStep::Continue)
                    && final(self).content_length == Some(n),
            },
    {
        if line.len() == 0 {
            return Ok(HeaderStep::End);
        }
        if blank_line(line) {
            let cl = self.content_length;
            self.content_length = None;
            return match cl {
                None => Err(FrameError::MissingLength),
                Some(n) => if n > MAX_LSP_PAYLOAD_BYTES {
                    Err(FrameError::TooLarge(n))
                } else {
                    Ok(HeaderStep::Body(n))
                },
            };
        }
        match read_header(line) {
            Err(e) => Err(e),
            Ok(None) => Ok(HeaderStep::Continue),
            Ok(Some(n)) => {
                self.content_length = Some(n);
                Ok(HeaderStep::Continue)
            },
        }
    }
}

fn blank_line(line: &[u8]) -> (r: bool)
    ensures
        r == is_blank_line(line@),
{
    if line.len() == 1 {
        if line[0] == 10 {
            assert(line@ =~= seq![10u8]);
            true
        } else {
            false
        }
    } else if line.len() == 2 {
        if line[0] == 13 && line[1] == 10 {
            assert(line@ =~= seq![13u8, 10u8]);
            true
        } else {
            false
        }
    } else {
        false
    }
}

/// Relies on std::str::from_utf8: it accepts exactly the valid UTF-8 byte
/// slices, and the string it returns holds those bytes.
#[verifier::external_body]
fn str_from_utf8(bytes: &[u8]) -> (r: Option<&str>)
    ensures
        match r {
            Some(s) => valid_utf8(bytes@) && s.spec_bytes() == bytes@,
            None => !valid_utf8(bytes@),
        },
{
    std::str::from_utf8(bytes).ok()
}

fn read_header(line: &[u8]) -> (r: Result<Option<usize>, FrameError>)
    ensures
        r == header_effect(line@),
{
    let text = match str_from_utf8(line) {
        Some(t) => t,
        None => {
            return Err(FrameError::HeaderNotText);
        },
    };
    proof {
        vstd::utf8::decode_utf8_encode_utf8(line@);
        vstd::utf8::encode_utf8_decode_utf8(text@);
    }
    let cs = chars_of(text);
    assert(cs@ == decode_utf8(line@));
    let (lo, hi) = trim_range(&cs, 0, cs.len());
    assert(cs@.subrange(0, cs@.len() as int) =~= cs@);
    let key = chars_of("Content-Length:");
    let ghost t = cs@.subrange(lo as int, hi as int);
    assert(t == trim(decode_utf8(line@)));
    if hi - lo < key.len() {
        return Ok(None);
    }
    let mut k: usize = 0;
    while k < key.len()
        invariant
            lo <= hi <= cs@.len(),
            key@.len() <= hi - lo,
            k <= key@.len(),
            t == cs@.subrange(lo as int, hi as int),
            valid_utf8(line@),
            t == trim(decode_utf8(line@)),
            key@ == "Content-Length:"@,
            forall|j: int| 0 <= j < k ==> t[j] == key@[j],
        decreases key@.len() - k,
    {
        if cs[lo + k] != key[k] {
            assert(t.subrange(0, key@.len() as int)[k as int] != key@[k as int]);
            return Ok(None);
        }
        k = k + 1;
    }
    assert(t.subrange(0, key@.len() as int) =~= key@);
    let (vlo, vhi) = trim_range(&cs, lo + key.len(), hi);
    assert(cs@.subrange(lo + key@.len(), hi as int) =~= t.subrange(key@.len() as int, t.len() as int));
    match parse_usize(&cs, vlo, vhi) {
        Some(n) => Ok(Some(n)),
        None => Err(FrameError::InvalidLength),
    }
}

/// Parses `cs[from..to]` as a non-negative decimal integer with an optional
/// leading `+`; `None` where it is not one or does not fit in `usize`.
pub fn parse_usize(cs: &Vec<char>, from: usize, to: usize) -> (r: Option<usize>)
    requires
        from <= to <= cs@.len(),
    ensures
        ({
            let p = parse_unsigned(cs@.subrange(from as int, to as int));
            match r {
                Some(n) => p == Some(n as nat),
                None => p is None || p.unwrap() > usize::MAX,
            }
        }),
{
    let ghost s = cs@.subrange(from as int, to as int);
    let mut start = from;
    if start < to && cs[start] == '+' {
        start = start + 1;
    }
    let ghost digits = cs@.subrange(start as int, to as int);
    assert(digits == (if s.len() > 0 && s[0] == '+' {
        s.drop_first()
    } else {
        s
    }));
    if start == to {
        return None;
    }
    let mut value: usize = 0;
    let mut i = start;
    while i < to
        invariant
            from <= start <= i <= to <= cs@.len(),
            digits == cs@.subrange(start as int, to as int),
            all_digits(cs@.subrange(start as int, i as int)),
            s == cs@.subrange(from as int, to as int),
            start < to,
            digits == (if s.len() > 0 && s[0] == '+' {
                s.drop_first()
            } else {
                s
            }),
            value as nat == digits_value(cs@.subrange(start as int, i as int)),
        decreases to - i,
    {
        let c = cs[i];
        if !('0' <= c && c <= '9') {
            assert(!is_digit(digits[i - start]));
            return None;
        }
        let d = (c as u32 - '0' as u32) as usize;
        assert(cs@.subrange(start as int, i + 1).drop_last() =~= cs@.subrange(start as int, i as int));
        if value > (usize::MAX - d) / 10 {
            proof {
                assert(value * 10 + d > usize::MAX) by (nonlinear_arith)
                    requires
                        value > (usize::MAX - d) / 10,
                        d <= 9,
                ;
                assert(digits_value(cs@.subrange(start as int, i + 1)) == value * 10 + d);
                lemma_digits_grow(digits, (i - start + 1) as int);
                assert(digits.subrange(0, i - start + 1) =~= cs@.subrange(start as int, i + 1));
            }
            return None;
        }
        value = value * 10 + d;
        i = i + 1;
    }
    assert(cs@.subrange(start as int, i as int) =~= digits);
    Some(value)
}

/// Builds the bytes that send `payload` as one frame: the header line
/// `Content-Length: <N>`, a blank line, then the payload's N bytes unchanged.
pub fn frame_message(payload: &str) -> (r: Vec<u8>)
    ensures
        r@ == frame_bytes(payload@),
{
    let body = payload.as_bytes();
    let n = body.len();
    let mut header = chars_of("Content-Length: ");
    let digits = decimal_chars(n as u64);
    push_all(&mut header, &digits);
    let end = chars_of("\r\n\r\n");
    push_all(&mut header, &end);
    assert(header@ == header_text(n as nat));
    let header_string = string_of_all(&header);
    let head = header_string.as_str().as_bytes();
    let mut r: Vec<u8> = Vec::new();
    let mut i: usize = 0;
    while i < head.len()
        invariant
            i <= head@.len(),
            r@ == head@.subrange(0, i as int),
        decreases head@.len() - i,
    {
        r.push(head[i]);
        i = i + 1;
        assert(r@ =~= head@.subrange(0, i as int));
    }
    assert(head@.subrange(0, i as int) =~= head@);
    let mut j: usize = 0;
    while j < n
        invariant
            n == body@.len(),
            j <= n,
            r@ == head@ + body@.subrange(0, j as int),
        decreases n - j,
    {
        r.push(body[j]);
        j = j + 1;
        assert(r@ =~= head@ + body@.subrange(0, j as int));
    }
    assert(body@.subrange(0, j as int) =~= body@);
    r
}

/// A header block that declares more than the maximum ends in an error, decided
/// at the blank line that closes the block, before any body byte is read; a
/// declared length within the maximum asks for exactly that many bytes.
pub proof fn lemma_oversized_length_fails(n: usize)
    ensures
        n > MAX_LSP_PAYLOAD_BYTES ==> block_end(Some(n)) == Err::<HeaderStep, FrameError>(
            FrameError::TooLarge(n),
        ),
        n <= MAX_LSP_PAYLOAD_BYTES ==> block_end(Some(n)) == Ok::<HeaderStep, FrameError>(
            HeaderStep::Body(n),
        ),
{
}

} // verus!
