use vexc_core::framing::{frame_message, FrameError, FrameReader, HeaderStep, MAX_LSP_PAYLOAD_BYTES};
use vexc_core::output_buffer::{append_terminal_output, MAX_TERMINAL_BUFFER_BYTES};
use vexc_core::utf8_stream::{decode_lossy, decode_terminal_output_chunk, flush_terminal_output};

fn decode_in_chunks(bytes: &[u8], size: usize) -> String {
    let mut pending = Vec::new();
    let mut out = String::new();
    for chunk in bytes.chunks(size) {
        out.push_str(&decode_terminal_output_chunk(&mut pending, chunk));
    }
    out.push_str(&flush_terminal_output(&mut pending));
    assert!(pending.is_empty());
    out
}

#[test]
fn chunked_decoding_matches_whole_decoding() {
    let text = "a€b😀c\u{e9}";
    let mut bytes = text.as_bytes().to_vec();
    bytes.extend_from_slice(&[0xff, b'x', 0xe2, 0x82]);
    let whole = decode_lossy(&bytes);
    assert_eq!(whole, String::from_utf8_lossy(&bytes));
    for size in 1..=4 {
        assert_eq!(decode_in_chunks(&bytes, size), whole);
    }
}

#[test]
fn split_character_is_held_back_until_complete() {
    let mut pending = Vec::new();
    let euro = "€".as_bytes();
    assert_eq!(decode_terminal_output_chunk(&mut pending, &euro[..1]), "");
    assert_eq!(pending, euro[..1].to_vec());
    assert_eq!(decode_terminal_output_chunk(&mut pending, &euro[1..2]), "");
    assert_eq!(decode_terminal_output_chunk(&mut pending, &euro[2..]), "€");
    assert!(pending.is_empty());
}

#[test]
fn malformed_bytes_are_replaced_not_held() {
    let mut pending = Vec::new();
    assert_eq!(
        decode_terminal_output_chunk(&mut pending, &[b'a', 0x80, 0xc3, 0x28]),
        "a\u{fffd}\u{fffd}("
    );
    assert!(pending.is_empty());
    assert_eq!(decode_terminal_output_chunk(&mut pending, &[0xf0, 0x9f]), "");
    assert_eq!(flush_terminal_output(&mut pending), "\u{fffd}");
}

#[test]
fn buffer_evicts_oldest_whole_characters() {
    let mut buffer = "é".repeat(MAX_TERMINAL_BUFFER_BYTES / 2);
    assert_eq!(buffer.len(), MAX_TERMINAL_BUFFER_BYTES);
    append_terminal_output(&mut buffer, "x");
    assert!(buffer.len() <= MAX_TERMINAL_BUFFER_BYTES);
    assert_eq!(buffer.len(), MAX_TERMINAL_BUFFER_BYTES - 1);
    assert!(buffer.ends_with("éx"));
    assert!(buffer.starts_with('é'));
}

#[test]
fn buffer_below_capacity_keeps_everything() {
    let mut buffer = String::from("ab");
    append_terminal_output(&mut buffer, "c€");
    assert_eq!(buffer, "abc€");
}

#[test]
fn buffer_never_exceeds_capacity() {
    let mut buffer = String::new();
    let chunk = "😀".repeat(100_000);
    for _ in 0..4 {
        append_terminal_output(&mut buffer, &chunk);
        assert!(buffer.len() <= MAX_TERMINAL_BUFFER_BYTES);
    }
    assert_eq!(buffer.len(), MAX_TERMINAL_BUFFER_BYTES);
}

fn read_one(reader: &mut FrameReader, input: &[u8]) -> (Result<HeaderStep, FrameError>, usize) {
    let mut pos = 0;
    loop {
        let end = input[pos..]
            .iter()
            .position(|b| *b == b'\n')
            .map(|i| pos + i + 1)
            .unwrap_or(input.len());
        let step = reader.on_header_line(&input[pos..end]);
        pos = end;
        match step {
            Ok(HeaderStep::Continue) => continue,
            other => return (other, pos),
        }
    }
}

#[test]
fn frame_reader_yields_one_frame_then_ends_cleanly() {
    let input = b"Content-Length: 5\r\n\r\nHELLO";
    let mut reader = FrameReader::new();
    let (step, pos) = read_one(&mut reader, input);
    assert_eq!(step, Ok(HeaderStep::Body(5)));
    let body = input[pos..pos + 5].to_vec();
    assert_eq!(decode_lossy(&body), "HELLO");
    let rest = &input[pos + 5..];
    assert!(rest.is_empty());
    assert_eq!(reader.on_header_line(rest), Ok(HeaderStep::End));
}

#[test]
fn oversized_frame_fails_at_end_of_header() {
    let header = format!("Content-Length: {}\n\n", MAX_LSP_PAYLOAD_BYTES + 1);
    let mut reader = FrameReader::new();
    let (step, _) = read_one(&mut reader, header.as_bytes());
    assert_eq!(step, Err(FrameError::TooLarge(MAX_LSP_PAYLOAD_BYTES + 1)));

    let header = format!("Content-Length: {}\n\n", MAX_LSP_PAYLOAD_BYTES);
    let mut reader = FrameReader::new();
    let (step, _) = read_one(&mut reader, header.as_bytes());
    assert_eq!(step, Ok(HeaderStep::Body(MAX_LSP_PAYLOAD_BYTES)));
}

#[test]
fn frame_header_errors() {
    let mut reader = FrameReader::new();
    assert_eq!(read_one(&mut reader, b"Content-Type: x\r\n\r\n").0, Err(FrameError::MissingLength));
    let mut reader = FrameReader::new();
    assert_eq!(read_one(&mut reader, b"Content-Length: -1\r\n").0, Err(FrameError::InvalidLength));
    let mut reader = FrameReader::new();
    assert_eq!(read_one(&mut reader, b"Content-Length: 99999999999999999999999\r\n").0, Err(FrameError::InvalidLength));
    let mut reader = FrameReader::new();
    assert_eq!(reader.on_header_line(&[0xff, b'\n']), Err(FrameError::HeaderNotText));
    let mut reader = FrameReader::new();
    assert_eq!(read_one(&mut reader, b"  Content-Length:  +12 \r\nX: y\n\n").0, Ok(HeaderStep::Body(12)));
    let mut reader = FrameReader::new();
    assert_eq!(read_one(&mut reader, b"Content-Length: 3\r\nContent-Length: 4\r\n\r\n").0, Ok(HeaderStep::Body(4)));
    let mut reader = FrameReader::new();
    assert_eq!(read_one(&mut reader, b"content-length: 3\r\n\r\n").0, Err(FrameError::MissingLength));
}

#[test]
fn frames_are_written_with_exact_length_header() {
    assert_eq!(frame_message("HELLO"), b"Content-Length: 5\r\n\r\nHELLO".to_vec());
    assert_eq!(frame_message("é"), b"Content-Length: 2\r\n\r\n\xc3\xa9".to_vec());
    let long = "x".repeat(1234);
    let framed = frame_message(&long);
    assert!(framed.starts_with(b"Content-Length: 1234\r\n\r\n"));
    assert_eq!(framed.len(), 1234 + "Content-Length: 1234\r\n\r\n".len());
}
