use vstd::prelude::*;
use vstd::string::*;
use vstd::utf8::*;

use crate::utf8_stream::text_of;

verus! {

broadcast use vstd::utf8::encode_utf8_decode_utf8, vstd::utf8::decode_utf8_encode_utf8,
    vstd::utf8::encode_utf8_valid_utf8;

/// Capacity of a terminal's output buffer, in bytes of UTF-8.
pub const MAX_TERMINAL_BUFFER_BYTES: usize = 1048576;

/// Size of a text in bytes of UTF-8.
pub open spec fn utf8_len(text: Seq<char>) -> nat {
    encode_utf8(text).len()
}

/// What a buffer keeps of `text`: the oldest characters are dropped, one whole
/// character at a time, until the rest fits the capacity.
pub open spec fn retained(text: Seq<char>) -> Seq<char>
    decreases text.len(),
{
    if text.len() == 0 || utf8_len(text) <= MAX_TERMINAL_BUFFER_BYTES {
        text
    } else {
        retained(text.drop_first())
    }
}

/// What is retained of a text is never larger than the capacity, and is what is
/// left of it once some whole characters are dropped from its front.
pub proof fn lemma_retained_fits(text: Seq<char>)
    ensures
        utf8_len(retained(text)) <= MAX_TERMINAL_BUFFER_BYTES,
        exists|k: int|
            0 <= k <= text.len() && #[trigger] text.subrange(k, text.len() as int) == retained(text),
    decreases text.len(),
{
    if text.len() == 0 {
        assert(encode_utf8(text) =~= Seq::<u8>::empty());
        assert(text.subrange(0, text.len() as int) =~= text);
    } else if utf8_len(text) <= MAX_TERMINAL_BUFFER_BYTES {
        assert(text.subrange(0, text.len() as int) =~= text);
    } else {
        lemma_retained_fits(text.drop_first());
        let k = choose|k: int|
            0 <= k <= text.drop_first().len() && #[trigger] text.drop_first().subrange(
                k,
                text.drop_first().len() as int,
            ) == retained(text.drop_first());
        assert(text.subrange(k + 1, text.len() as int) =~= text.drop_first().subrange(
            k,
            text.drop_first().len() as int,
        ));
    }
}

/// Relies on String::push_str: appends the characters of `tail`.
#[verifier::external_body]
fn push_text(s: &mut String, tail: &str)
    ensures
        final(s)@ == old(s)@ + tail@,
{
    s.push_str(tail)
}

/// Width of the character that a valid sequence starts with, read from its lead byte.
fn lead_width(bytes: &[u8], pos: usize) -> (w: usize)
    requires
        pos < bytes@.len(),
        valid_first_scalar(bytes@.subrange(pos as int, bytes@.len() as int)),
    ensures
        w as int == length_of_first_scalar(bytes@.subrange(pos as int, bytes@.len() as int)),
{
    let ghost b = bytes@.subrange(pos as int, bytes@.len() as int);
    assert(b[0] == bytes@[pos as int]);
    let lead = bytes[pos];
    if lead <= 0x7f {
        1
    } else if lead <= 0xdf {
        2
    } else if lead <= 0xef {
        3
    } else {
        4
    }
}

/// Appends `chunk` to a terminal's output buffer, then drops the oldest whole
/// characters until the buffer fits its capacity again.
pub fn append_terminal_output(output: &mut String, chunk: &str)
    ensures
        final(output)@ == retained(old(output)@ + chunk@),
        utf8_len(final(output)@) <= MAX_TERMINAL_BUFFER_BYTES,
{
    push_text(output, chunk);
    let ghost joined = output@;
    proof {
        lemma_retained_fits(joined);
    }
    let bytes = output.as_str().as_bytes();
    let len = bytes.len();
    assert(bytes@ == encode_utf8(joined));
    if len <= MAX_TERMINAL_BUFFER_BYTES {
        return;
    }
    let mut drain_to: usize = 0;
    assert(bytes@.subrange(0, len as int) =~= bytes@);
    while len - drain_to > MAX_TERMINAL_BUFFER_BYTES
        invariant
            len == bytes@.len(),
            drain_to <= len,
            valid_utf8(bytes@.subrange(drain_to as int, len as int)),
            retained(joined) == retained(decode_utf8(bytes@.subrange(drain_to as int, len as int))),
        decreases len - drain_to,
    {
        let ghost rest = bytes@.subrange(drain_to as int, len as int);
        let w = lead_width(bytes, drain_to);
        proof {
            let text = decode_utf8(rest);
            assert(utf8_len(text) == rest.len());
            assert(text.len() > 0);
            assert(text.drop_first() =~= decode_utf8(pop_first_scalar(rest)));
            assert(pop_first_scalar(rest) =~= bytes@.subrange(drain_to + w, len as int));
        }
        drain_to = drain_to + w;
    }
    let mut kept: Vec<u8> = Vec::new();
    let mut i: usize = drain_to;
    while i < len
        invariant
            len == bytes@.len(),
            drain_to <= i <= len,
            kept@ == bytes@.subrange(drain_to as int, i as int),
        decreases len - i,
    {
        kept.push(bytes[i]);
        i = i + 1;
        assert(kept@ =~= bytes@.subrange(drain_to as int, i as int));
    }
    assert(utf8_len(decode_utf8(kept@)) == kept@.len());
    *output = text_of(kept);
}

} // verus!
