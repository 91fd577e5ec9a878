use vstd::prelude::*;
use vstd::utf8::*;

verus! {

/// The character that stands for each malformed byte sequence.
pub open spec fn replacement() -> char {
    '\u{FFFD}'
}

/// Number of bytes of the well-formed sequence that `lead` starts, or 0 where
/// no well-formed sequence starts with `lead`.
pub open spec fn sequence_width(lead: u8) -> int {
    if lead <= 0x7f {
        1
    } else if 0xc2 <= lead <= 0xdf {
        2
    } else if 0xe0 <= lead <= 0xef {
        3
    } else if 0xf0 <= lead <= 0xf4 {
        4
    } else {
        0
    }
}

/// Whether `b` may stand at offset `i` (1, 2 or 3) of a sequence led by `lead`.
pub open spec fn continues(lead: u8, i: int, b: u8) -> bool {
    if i == 1 && lead == 0xe0 {
        0xa0 <= b <= 0xbf
    } else if i == 1 && lead == 0xed {
        0x80 <= b <= 0x9f
    } else if i == 1 && lead == 0xf0 {
        0x90 <= b <= 0xbf
    } else if i == 1 && lead == 0xf4 {
        0x80 <= b <= 0x8f
    } else {
        0x80 <= b <= 0xbf
    }
}

/// Length of the longest prefix of a non-empty `b` that begins some well-formed
/// sequence, capped at that sequence's width.
pub open spec fn matched_len(b: Seq<u8>) -> int {
    let w = sequence_width(b[0]);
    if w == 0 {
        0
    } else if w == 1 || b.len() < 2 || !continues(b[0], 1, b[1]) {
        1
    } else if w == 2 || b.len() < 3 || !continues(b[0], 2, b[2]) {
        2
    } else if w == 3 || b.len() < 4 || !continues(b[0], 3, b[3]) {
        3
    } else {
        4
    }
}

/// `b` starts with a complete well-formed character.
pub open spec fn starts_with_char(b: Seq<u8>) -> bool {
    b.len() > 0 && sequence_width(b[0]) > 0 && matched_len(b) == sequence_width(b[0])
}

/// `b` is a proper prefix of a well-formed character: more bytes could complete it.
pub open spec fn is_truncated(b: Seq<u8>) -> bool {
    b.len() > 0 && sequence_width(b[0]) > 0 && matched_len(b) < sequence_width(b[0])
        && matched_len(b) == b.len()
}

/// Length of the malformed sequence at the start of `b` (the maximal prefix of a
/// well-formed sequence, at least one byte).
pub open spec fn invalid_len(b: Seq<u8>) -> int {
    if matched_len(b) == 0 {
        1
    } else {
        matched_len(b)
    }
}

/// The character encoded at the start of `b`.
pub open spec fn first_char(b: Seq<u8>) -> char {
    decode_first_scalar(b) as char
}

/// Decoding of a whole byte stream, each malformed sequence (and a truncated
/// character at the end) replaced by one replacement character.
pub open spec fn lossy_decode(b: Seq<u8>) -> Seq<char>
    decreases b.len(),
{
    if b.len() == 0 {
        seq![]
    } else if starts_with_char(b) {
        seq![first_char(b)] + lossy_decode(b.subrange(sequence_width(b[0]), b.len() as int))
    } else if is_truncated(b) {
        seq![replacement()]
    } else {
        seq![replacement()] + lossy_decode(b.subrange(invalid_len(b), b.len() as int))
    }
}

/// Decoding of what `b` settles: the characters decided so far, and the bytes of a
/// truncated character at the end that later input may still complete.
pub open spec fn settle(b: Seq<u8>) -> (Seq<char>, Seq<u8>)
    decreases b.len(),
{
    if b.len() == 0 {
        (seq![], seq![])
    } else if starts_with_char(b) {
        let rest = settle(b.subrange(sequence_width(b[0]), b.len() as int));
        (seq![first_char(b)] + rest.0, rest.1)
    } else if is_truncated(b) {
        (seq![], b)
    } else {
        let rest = settle(b.subrange(invalid_len(b), b.len() as int));
        (seq![replacement()] + rest.0, rest.1)
    }
}

/// What the decoder emits over a run of chunks that starts with `pending` held
/// back: the settled text of each chunk in turn, then the flush at the end.
pub open spec fn stream_output(pending: Seq<u8>, chunks: Seq<Seq<u8>>) -> Seq<char>
    decreases chunks.len(),
{
    if chunks.len() == 0 {
        lossy_decode(pending)
    } else {
        let s = settle(pending + chunks[0]);
        s.0 + stream_output(s.1, chunks.drop_first())
    }
}

/// All chunks joined into one byte stream.
pub open spec fn concat_chunks(chunks: Seq<Seq<u8>>) -> Seq<u8>
    decreases chunks.len(),
{
    if chunks.len() == 0 {
        seq![]
    } else {
        chunks[0] + concat_chunks(chunks.drop_first())
    }
}

proof fn lemma_matched_len_bounds(b: Seq<u8>)
    requires
        b.len() > 0,
    ensures
        0 <= matched_len(b) <= b.len(),
        matched_len(b) <= sequence_width(b[0]),
        1 <= invalid_len(b) <= b.len(),
{
}

/// Appending bytes keeps every decision already made on the front of `a`.
proof fn lemma_scan_extends(a: Seq<u8>, b: Seq<u8>)
    requires
        a.len() > 0,
        !is_truncated(a),
    ensures
        (a + b)[0] == a[0],
        matched_len(a + b) == matched_len(a),
        starts_with_char(a + b) == starts_with_char(a),
        !is_truncated(a + b),
        invalid_len(a + b) == invalid_len(a),
        starts_with_char(a) ==> first_char(a + b) == first_char(a),
{
    let ab = a + b;
    assert(ab[0] == a[0]);
    if a.len() >= 2 {
        assert(ab[1] == a[1]);
    }
    if a.len() >= 3 {
        assert(ab[2] == a[2]);
    }
    if a.len() >= 4 {
        assert(ab[3] == a[3]);
    }
}

/// Decoding a stream is decoding what its front settles, then the rest with the
/// held-back bytes put before it.
pub proof fn lemma_settle_then_rest(a: Seq<u8>, b: Seq<u8>)
    ensures
        lossy_decode(a + b) == settle(a).0 + lossy_decode(settle(a).1 + b),
    decreases a.len(),
{
    if a.len() == 0 {
        assert(a + b =~= b);
        assert(settle(a).1 + b =~= b);
    } else if is_truncated(a) {
        assert(settle(a).0 =~= seq![]);
    } else {
        lemma_matched_len_bounds(a);
        lemma_scan_extends(a, b);
        let n = if starts_with_char(a) {
            sequence_width(a[0])
        } else {
            invalid_len(a)
        };
        let rest = a.subrange(n, a.len() as int);
        assert((a + b).subrange(n, (a + b).len() as int) =~= rest + b);
        lemma_settle_then_rest(rest, b);
        assert(settle(a).1 == settle(rest).1);
    }
}

proof fn lemma_concat_chunks_step(chunks: Seq<Seq<u8>>)
    requires
        chunks.len() > 0,
    ensures
        concat_chunks(chunks) == chunks[0] + concat_chunks(chunks.drop_first()),
{
}

/// Decoding a stream chunk by chunk, carrying a truncated character from one chunk
/// to the next and flushing at the end, gives the same text as decoding the whole
/// stream at once, wherever the chunk boundaries fall.
pub proof fn lemma_chunked_decoding(pending: Seq<u8>, chunks: Seq<Seq<u8>>)
    ensures
        stream_output(pending, chunks) == lossy_decode(pending + concat_chunks(chunks)),
    decreases chunks.len(),
{
    if chunks.len() == 0 {
        assert(pending + concat_chunks(chunks) =~= pending);
    } else {
        let first = pending + chunks[0];
        let s = settle(first);
        lemma_chunked_decoding(s.1, chunks.drop_first());
        lemma_settle_then_rest(first, concat_chunks(chunks.drop_first()));
        lemma_concat_chunks_step(chunks);
        assert(pending + concat_chunks(chunks) =~= first + concat_chunks(chunks.drop_first()));
    }
}


proof fn lemma_width2(b0: u8, b1: u8)
    by (bit_vector)
    requires
        0xc2 <= b0 <= 0xdf,
        0x80 <= b1 <= 0xbf,
    ensures
        0x80 <= ((((b0 & 0x1f) as u32) << 6) | ((b1 & 0x3f) as u32)),
        ((((b0 & 0x1f) as u32) << 6) | ((b1 & 0x3f) as u32)) <= 0x7ff,
{
}

proof fn lemma_width3(b0: u8, b1: u8, b2: u8)
    by (bit_vector)
    requires
        0xe0 <= b0 <= 0xef,
        0x80 <= b1 <= 0xbf,
        b0 == 0xe0 ==> 0xa0 <= b1,
        b0 == 0xed ==> b1 <= 0x9f,
        0x80 <= b2 <= 0xbf,
    ensures
        0x800 <= ((((b0 & 0x0f) as u32) << 12) | (((b1 & 0x3f) as u32) << 6) | ((b2 & 0x3f) as u32)),
        !(0xd800 <= ((((b0 & 0x0f) as u32) << 12) | (((b1 & 0x3f) as u32) << 6) | ((b2 & 0x3f) as u32))
            <= 0xdfff),
{
}

proof fn lemma_width4(b0: u8, b1: u8, b2: u8, b3: u8)
    by (bit_vector)
    requires
        0xf0 <= b0 <= 0xf4,
        0x80 <= b1 <= 0xbf,
        b0 == 0xf0 ==> 0x90 <= b1,
        b0 == 0xf4 ==> b1 <= 0x8f,
        0x80 <= b2 <= 0xbf,
        0x80 <= b3 <= 0xbf,
    ensures
        0x10000 <= ((((b0 & 0x07) as u32) << 18) | (((b1 & 0x3f) as u32) << 12) | (((b2 & 0x3f) as u32) << 6)
            | ((b3 & 0x3f) as u32)),
        ((((b0 & 0x07) as u32) << 18) | (((b1 & 0x3f) as u32) << 12) | (((b2 & 0x3f) as u32) << 6) | ((b3
            & 0x3f) as u32)) <= 0x10ffff,
{
}

/// The bytes of a complete well-formed character are valid UTF-8 and decode to it.
proof fn lemma_char_bytes(b: Seq<u8>)
    requires
        starts_with_char(b),
    ensures
        valid_utf8(b.subrange(0, sequence_width(b[0]))),
        decode_utf8(b.subrange(0, sequence_width(b[0]))) == seq![first_char(b)],
{
    let w = sequence_width(b[0]);
    let t = b.subrange(0, w);
    lemma_matched_len_bounds(b);
    if w == 2 {
        lemma_width2(b[0], b[1]);
    } else if w == 3 {
        lemma_width3(b[0], b[1], b[2]);
    } else if w == 4 {
        lemma_width4(b[0], b[1], b[2], b[3]);
    }
    assert(t[0] == b[0]);
    assert(valid_first_scalar(t));
    assert(decode_first_scalar(t) == decode_first_scalar(b));
    assert(pop_first_scalar(t) =~= Seq::<u8>::empty());
    assert(valid_utf8(pop_first_scalar(t)));
    assert(decode_utf8(pop_first_scalar(t)) =~= Seq::<char>::empty());
    assert(decode_utf8(t) =~= seq![first_char(b)]);
}

/// The three bytes that encode the replacement character.
proof fn lemma_replacement_bytes()
    ensures
        valid_utf8(seq![0xefu8, 0xbfu8, 0xbdu8]),
        decode_utf8(seq![0xefu8, 0xbfu8, 0xbdu8]) == seq![replacement()],
{
    let t = seq![0xefu8, 0xbfu8, 0xbdu8];
    assert(((((0xefu8 & 0x0f) as u32) << 12) | (((0xbfu8 & 0x3f) as u32) << 6) | ((0xbdu8 & 0x3f)
        as u32)) == 0xfffd) by (bit_vector);
    assert(decode_first_scalar(t) == 0xfffd);
    assert(pop_first_scalar(t) =~= Seq::<u8>::empty());
    assert(valid_utf8(pop_first_scalar(t)));
    assert(decode_utf8(pop_first_scalar(t)) =~= Seq::<char>::empty());
    assert(decode_utf8(t) =~= seq![replacement()]);
}

/// Decoding valid UTF-8 splits at the seam of two valid pieces.
proof fn lemma_decode_concat(a: Seq<u8>, b: Seq<u8>)
    requires
        valid_utf8(a),
        valid_utf8(b),
    ensures
        valid_utf8(a + b),
        decode_utf8(a + b) == decode_utf8(a) + decode_utf8(b),
    decreases a.len(),
{
    let ab = a + b;
    if a.len() == 0 {
        assert(ab =~= b);
        assert(decode_utf8(a) =~= Seq::<char>::empty());
        assert(decode_utf8(a) + decode_utf8(b) =~= decode_utf8(b));
    } else {
        assert(ab[0] == a[0]);
        if a.len() >= 2 {
            assert(ab[1] == a[1]);
        }
        if a.len() >= 3 {
            assert(ab[2] == a[2]);
        }
        if a.len() >= 4 {
            assert(ab[3] == a[3]);
        }
        assert(valid_first_scalar(ab));
        assert(pop_first_scalar(ab) =~= pop_first_scalar(a) + b);
        lemma_decode_concat(pop_first_scalar(a), b);
        assert(decode_utf8(ab) =~= decode_utf8(a) + decode_utf8(b));
    }
}

/// How the bytes at some position start.
enum Scan {
    Char(usize),
    Truncated,
    Invalid(usize),
}

fn sequence_width_of(lead: u8) -> (w: usize)
    ensures
        w as int == sequence_width(lead),
{
    if lead <= 0x7f {
        1
    } else if 0xc2 <= lead && lead <= 0xdf {
        2
    } else if 0xe0 <= lead && lead <= 0xef {
        3
    } else if 0xf0 <= lead && lead <= 0xf4 {
        4
    } else {
        0
    }
}

fn continues_at(lead: u8, i: usize, b: u8) -> (r: bool)
    ensures
        r == continues(lead, i as int, b),
{
    if i == 1 && lead == 0xe0 {
        0xa0 <= b && b <= 0xbf
    } else if i == 1 && lead == 0xed {
        0x80 <= b && b <= 0x9f
    } else if i == 1 && lead == 0xf0 {
        0x90 <= b && b <= 0xbf
    } else if i == 1 && lead == 0xf4 {
        0x80 <= b && b <= 0x8f
    } else {
        0x80 <= b && b <= 0xbf
    }
}

fn scan_at(bytes: &Vec<u8>, pos: usize) -> (r: Scan)
    requires
        pos < bytes.len(),
    ensures
        ({
            let b = bytes@.subrange(pos as int, bytes@.len() as int);
            match r {
                Scan::Char(n) => starts_with_char(b) && n as int == sequence_width(b[0]),
                Scan::Truncated => is_truncated(b),
                Scan::Invalid(n) => !starts_with_char(b) && !is_truncated(b) && n as int
                    == invalid_len(b),
            }
        }),
{
    let ghost b = bytes@.subrange(pos as int, bytes@.len() as int);
    let len = bytes.len();
    let lead = bytes[pos];
    let w = sequence_width_of(lead);
    let m: usize = if w == 0 {
        0
    } else if w == 1 || len - pos < 2 || !continues_at(lead, 1, bytes[pos + 1]) {
        1
    } else if w == 2 || len - pos < 3 || !continues_at(lead, 2, bytes[pos + 2]) {
        2
    } else if w == 3 || len - pos < 4 || !continues_at(lead, 3, bytes[pos + 3]) {
        3
    } else {
        4
    };
    assert(m as int == matched_len(b));
    if w > 0 && m == w {
        Scan::Char(w)
    } else if w > 0 && m < w && m == len - pos {
        Scan::Truncated
    } else if m == 0 {
        Scan::Invalid(1)
    } else {
        Scan::Invalid(m)
    }
}

/// Decodes `bytes` from the front. Where `at_end` is false, a truncated character
/// at the end is left undecoded and its position returned; where it is true, it is
/// replaced like any malformed sequence.
fn decode_front(bytes: &Vec<u8>, at_end: bool) -> (r: (Vec<u8>, usize))
    ensures
        valid_utf8(r.0@),
        r.1 <= bytes.len(),
        at_end ==> decode_utf8(r.0@) == lossy_decode(bytes@) && r.1 == bytes.len(),
        !at_end ==> decode_utf8(r.0@) == settle(bytes@).0 && bytes@.subrange(
            r.1 as int,
            bytes@.len() as int,
        ) == settle(bytes@).1,
{
    let ghost all = bytes@;
    let n = bytes.len();
    let mut out: Vec<u8> = Vec::new();
    let mut pos: usize = 0;
    let mut stop = false;
    assert(all.subrange(0, n as int) =~= all);
    assert(decode_utf8(out@) =~= Seq::<char>::empty());
    while pos < n && !stop
        invariant
            n == bytes.len(),
            all == bytes@,
            pos <= n,
            valid_utf8(out@),
            stop ==> !at_end && is_truncated(all.subrange(pos as int, n as int)),
            at_end ==> lossy_decode(all) == decode_utf8(out@) + lossy_decode(
                all.subrange(pos as int, n as int),
            ),
            !at_end ==> settle(all).0 == decode_utf8(out@) + settle(
                all.subrange(pos as int, n as int),
            ).0,
            !at_end ==> settle(all).1 == settle(all.subrange(pos as int, n as int)).1,
        decreases (n - pos) + (if stop { 0int } else { 1int }),
    {
        let ghost sub = all.subrange(pos as int, n as int);
        let ghost old_out = out@;
        proof {
            lemma_matched_len_bounds(sub);
        }
        match scan_at(bytes, pos) {
            Scan::Char(w) => {
                let mut i: usize = 0;
                while i < w
                    invariant
                        n == bytes.len(),
                        all == bytes@,
                        pos + w <= n,
                        i <= w,
                        out@ == old_out + all.subrange(pos as int, pos + i),
                    decreases w - i,
                {
                    out.push(bytes[pos + i]);
                    i = i + 1;
                    assert(out@ =~= old_out + all.subrange(pos as int, pos + i));
                }
                proof {
                    lemma_char_bytes(sub);
                    assert(sub.subrange(0, w as int) =~= all.subrange(pos as int, pos + w));
                    lemma_decode_concat(old_out, all.subrange(pos as int, pos + w));
                    assert(sub.subrange(w as int, sub.len() as int) =~= all.subrange(
                        pos + w,
                        n as int,
                    ));
                }
                pos = pos + w;
            },
            Scan::Truncated => {
                if at_end {
                    out.push(0xef);
                    out.push(0xbf);
                    out.push(0xbd);
                    proof {
                        lemma_replacement_bytes();
                        assert(out@ =~= old_out + seq![0xefu8, 0xbfu8, 0xbdu8]);
                        lemma_decode_concat(old_out, seq![0xefu8, 0xbfu8, 0xbdu8]);
                        assert(all.subrange(n as int, n as int) =~= Seq::<u8>::empty());
                    }
                    pos = n;
                } else {
                    stop = true;
                }
            },
            Scan::Invalid(k) => {
                out.push(0xef);
                out.push(0xbf);
                out.push(0xbd);
                proof {
                    lemma_replacement_bytes();
                    assert(out@ =~= old_out + seq![0xefu8, 0xbfu8, 0xbdu8]);
                    lemma_decode_concat(old_out, seq![0xefu8, 0xbfu8, 0xbdu8]);
                    assert(sub.subrange(k as int, sub.len() as int) =~= all.subrange(
                        pos + k,
                        n as int,
                    ));
                }
                pos = pos + k;
            },
        }
    }
    proof {
        if !stop {
            assert(all.subrange(pos as int, n as int) =~= Seq::<u8>::empty());
        }
    }
    assert(decode_utf8(out@) + Seq::<char>::empty() =~= decode_utf8(out@));
    (out, pos)
}

/// Relies on String::from_utf8: it accepts exactly the valid UTF-8 byte vectors,
/// and the string it returns holds those bytes.
#[verifier::external_body]
fn string_from_utf8(bytes: Vec<u8>) -> (r: Option<String>)
    ensures
        match r {
            Some(s) => valid_utf8(bytes@) && encode_utf8(s@) == bytes@,
            None => !valid_utf8(bytes@),
        },
{
    String::from_utf8(bytes).ok()
}

/// The string that the valid UTF-8 `bytes` encode.
pub fn text_of(bytes: Vec<u8>) -> (s: String)
    requires
        valid_utf8(bytes@),
    ensures
        s@ == decode_utf8(bytes@),
{
    match string_from_utf8(bytes) {
        Some(s) => {
            proof {
                encode_utf8_decode_utf8(s@);
            }
            s
        },
        None => String::new(),
    }
}

/// Appends a chunk read from a terminal to the bytes held back from earlier
/// reads, and returns the text that is now settled. A character split across
/// reads stays held back until its last byte comes; a malformed sequence becomes
/// one replacement character.
pub fn decode_terminal_output_chunk(pending_utf8_bytes: &mut Vec<u8>, chunk_bytes: &[u8]) -> (decoded: String)
    ensures
        decoded@ == settle(old(pending_utf8_bytes)@ + chunk_bytes@).0,
        final(pending_utf8_bytes)@ == settle(old(pending_utf8_bytes)@ + chunk_bytes@).1,
{
    let ghost start = pending_utf8_bytes@;
    let mut i: usize = 0;
    while i < chunk_bytes.len()
        invariant
            i <= chunk_bytes@.len(),
            pending_utf8_bytes@ == start + chunk_bytes@.subrange(0, i as int),
        decreases chunk_bytes@.len() - i,
    {
        pending_utf8_bytes.push(chunk_bytes[i]);
        i = i + 1;
        assert(pending_utf8_bytes@ =~= start + chunk_bytes@.subrange(0, i as int));
    }
    assert(chunk_bytes@.subrange(0, i as int) =~= chunk_bytes@);
    let (out, pos) = decode_front(pending_utf8_bytes, false);
    let rest = pending_utf8_bytes.split_off(pos);
    *pending_utf8_bytes = rest;
    text_of(out)
}

/// Decodes the bytes still held back when the stream ends, replacing a truncated
/// character, and leaves nothing held back.
pub fn flush_terminal_output(pending_utf8_bytes: &mut Vec<u8>) -> (decoded: String)
    ensures
        decoded@ == lossy_decode(old(pending_utf8_bytes)@),
        final(pending_utf8_bytes)@.len() == 0,
{
    let (out, _) = decode_front(pending_utf8_bytes, true);
    pending_utf8_bytes.clear();
    text_of(out)
}

/// Decodes a whole byte sequence at once, each malformed sequence (and a
/// truncated character at the end) replaced by one replacement character.
pub fn decode_lossy(bytes: &Vec<u8>) -> (decoded: String)
    ensures
        decoded@ == lossy_decode(bytes@),
{
    let (out, _) = decode_front(bytes, true);
    text_of(out)
}

} // verus!
