use base64_core::stream::{
    conclude, is_ascii_whitespace, process_chunk, read_process_write, read_step, transform,
    trim_trailing_whitespace, Failure, ReadAction, ReadEvent, BUFFER_SIZE,
};
use base64_core::{Base64, DecodingErrorKind, OperationMode};

fn sample(len: usize) -> Vec<u8> {
    let mut bytes: Vec<u8> = Vec::with_capacity(len);
    let mut i: usize = 0;
    while i < len {
        bytes.push((i * 31 + i / 251) as u8);
        i += 1;
    }
    bytes
}

fn encode_by_chunks(codec: &Base64, input: &[u8], chunk_size: usize) -> Vec<u8> {
    let mut joined: Vec<u8> = Vec::new();
    for chunk in input.chunks(chunk_size) {
        joined.extend_from_slice(&codec.encode(chunk));
    }
    joined
}

#[test]
fn buffer_size_is_a_whole_number_of_groups() {
    assert_eq!(BUFFER_SIZE, 1023 * 1024);
    assert_eq!(BUFFER_SIZE, 1_047_552);
    assert_eq!(BUFFER_SIZE % 3, 0);
    assert_eq!(BUFFER_SIZE % 4, 0);
}

#[test]
fn whitespace_is_what_std_calls_ascii_whitespace() {
    let mut c: u16 = 0;
    while c < 256 {
        let byte: u8 = c as u8;
        assert_eq!(is_ascii_whitespace(byte), byte.is_ascii_whitespace());
        c += 1;
    }
    assert!(is_ascii_whitespace(b' '));
    assert!(is_ascii_whitespace(b'\t'));
    assert!(is_ascii_whitespace(b'\n'));
    assert!(is_ascii_whitespace(0x0c));
    assert!(is_ascii_whitespace(b'\r'));
    assert!(!is_ascii_whitespace(0x0b));
    assert!(!is_ascii_whitespace(b'='));
}

#[test]
fn trim_strips_only_the_trailing_whitespace() {
    assert_eq!(trim_trailing_whitespace(b"TWFu\r\n"), b"TWFu");
    assert_eq!(trim_trailing_whitespace(b"TWFu \t\n\x0c\r"), b"TWFu");
    assert_eq!(trim_trailing_whitespace(b"TW Fu\n"), b"TW Fu");
    assert_eq!(trim_trailing_whitespace(b"\nTWFu"), b"\nTWFu");
    assert_eq!(trim_trailing_whitespace(b"TWFu"), b"TWFu");
    assert_eq!(trim_trailing_whitespace(b" \n "), b"");
    assert_eq!(trim_trailing_whitespace(b""), b"");
    assert_eq!(trim_trailing_whitespace(b"TWFu\x0b"), b"TWFu\x0b");
}

#[test]
fn transform_encodes_a_chunk_as_it_is() {
    let codec = Base64::new();
    let out = transform(&codec, OperationMode::Encode, b"Man\n").expect("encoding never fails");
    assert_eq!(out, b"TWFuCg==".to_vec());
    let out = transform(&codec, OperationMode::Encode, b"").expect("encoding never fails");
    assert_eq!(out, Vec::<u8>::new());
}

#[test]
fn transform_decodes_a_chunk_without_its_trailing_whitespace() {
    let codec = Base64::new();
    let out = transform(&codec, OperationMode::Decode, b"TWFu\r\n").expect("decodes");
    assert_eq!(out, b"Man".to_vec());
    let out = transform(&codec, OperationMode::Decode, b"TWE=\n").expect("decodes");
    assert_eq!(out, b"Ma".to_vec());
    let out = transform(&codec, OperationMode::Decode, b"\n").expect("decodes");
    assert_eq!(out, Vec::<u8>::new());
}

#[test]
fn transform_keeps_interior_whitespace_and_fails_on_it() {
    let codec = Base64::new();
    let e = transform(&codec, OperationMode::Decode, b"TWF\nTWFu\n").unwrap_err();
    assert_eq!(e.kind(), DecodingErrorKind::InvalidCharacter);
    let e = transform(&codec, OperationMode::Decode, b"TW\nFu").unwrap_err();
    assert_eq!(e.kind(), DecodingErrorKind::InvalidLength);
    let e = transform(&codec, OperationMode::Decode, b"\nTWFu").unwrap_err();
    assert_eq!(e.kind(), DecodingErrorKind::InvalidLength);
}

#[test]
fn process_chunk_tells_a_short_read_from_a_full_one() {
    let codec = Base64::new();
    let buffer: [u8; 6] = *b"ManMan";
    let full = process_chunk(&codec, OperationMode::Encode, &buffer, 6).expect("encodes");
    assert_eq!(full.output, b"TWFuTWFu".to_vec());
    assert!(!full.last);
    let short = process_chunk(&codec, OperationMode::Encode, &buffer, 4).expect("encodes");
    assert_eq!(short.output, b"TWFuTQ==".to_vec());
    assert!(short.last);
    let empty = process_chunk(&codec, OperationMode::Encode, &buffer, 0).expect("encodes");
    assert_eq!(empty.output, Vec::<u8>::new());
    assert!(empty.last);
}

#[test]
fn process_chunk_decodes_only_the_bytes_read() {
    let codec = Base64::new();
    let buffer: [u8; 8] = *b"TWFu\n!!!";
    let step = process_chunk(&codec, OperationMode::Decode, &buffer, 5).expect("decodes");
    assert_eq!(step.output, b"Man".to_vec());
    assert!(step.last);
    let e = match process_chunk(&codec, OperationMode::Decode, &buffer, 8) {
        Ok(_) => panic!("the whole buffer does not decode"),
        Err(e) => e,
    };
    assert_eq!(e.kind(), DecodingErrorKind::InvalidCharacter);
}

#[test]
fn chunked_encoding_equals_whole_encoding_for_chunks_of_whole_groups() {
    let codec = Base64::new();
    let input = sample(1000);
    let whole = codec.encode(&input);
    for chunk_size in [3usize, 6, 9, 30, 300, 999, 1002, 3000] {
        assert_eq!(encode_by_chunks(&codec, &input, chunk_size), whole);
        let streamed = read_process_write(&input, chunk_size, &codec, OperationMode::Encode)
            .expect("encoding never fails");
        assert_eq!(streamed, whole);
    }
}

#[test]
fn chunked_encoding_differs_for_chunks_that_split_a_group() {
    let codec = Base64::new();
    assert_eq!(codec.encode(b"Man"), b"TWFu".to_vec());
    assert_eq!(encode_by_chunks(&codec, b"Man", 2), b"TWE=bg==".to_vec());
    assert_eq!(
        read_process_write(b"Man", 2, &codec, OperationMode::Encode).expect("encodes"),
        b"TWE=bg==".to_vec()
    );
    assert_eq!(
        read_process_write(b"Man", 1, &codec, OperationMode::Encode).expect("encodes"),
        b"TQ==YQ==bg==".to_vec()
    );
    let input = sample(1000);
    assert_ne!(encode_by_chunks(&codec, &input, 4), codec.encode(&input));
}

#[test]
fn stream_of_the_buffer_size_encodes_as_one() {
    let codec = Base64::new();
    let input = sample(2 * BUFFER_SIZE + 5);
    let streamed = read_process_write(&input, BUFFER_SIZE, &codec, OperationMode::Encode)
        .expect("encoding never fails");
    assert_eq!(streamed.len(), 4 * ((input.len() + 2) / 3));
    assert_eq!(streamed, codec.encode(&input));
}

#[test]
fn stream_that_ends_on_a_chunk_boundary_ends_with_an_empty_chunk() {
    let codec = Base64::new();
    assert_eq!(
        read_process_write(b"ManMan", 3, &codec, OperationMode::Encode).expect("encodes"),
        b"TWFuTWFu".to_vec()
    );
    assert_eq!(
        read_process_write(b"", 3, &codec, OperationMode::Encode).expect("encodes"),
        Vec::<u8>::new()
    );
    assert_eq!(
        read_process_write(b"TWFuTWFu", 4, &codec, OperationMode::Decode).expect("decodes"),
        b"ManMan".to_vec()
    );
}

#[test]
fn stream_decodes_chunks_of_whole_groups() {
    let codec = Base64::new();
    let input = sample(1000);
    let encoded = codec.encode(&input);
    for chunk_size in [4usize, 8, 400, 1336, 4000] {
        let streamed = read_process_write(&encoded, chunk_size, &codec, OperationMode::Decode)
            .expect("decodes");
        assert_eq!(streamed, input);
    }
    let mut with_newline = encoded.clone();
    with_newline.push(b'\n');
    let streamed = read_process_write(&with_newline, 4000, &codec, OperationMode::Decode)
        .expect("decodes");
    assert_eq!(streamed, input);
}

#[test]
fn stream_stops_at_the_first_error() {
    let codec = Base64::new();
    let e = read_process_write(b"TWFuTW!uTWF", 4, &codec, OperationMode::Decode).unwrap_err();
    assert_eq!(e.kind(), DecodingErrorKind::InvalidCharacter);
    let e = read_process_write(b"TWFuTWFuTWF", 4, &codec, OperationMode::Decode).unwrap_err();
    assert_eq!(e.kind(), DecodingErrorKind::InvalidLength);
    let e = read_process_write(b"TWFuTWFu", 3, &codec, OperationMode::Decode).unwrap_err();
    assert_eq!(e.kind(), DecodingErrorKind::InvalidLength);
}

#[test]
fn read_step_counts_bytes_and_reads_on() {
    assert_eq!(read_step(0, 10, ReadEvent::Read(4)), ReadAction::ReadFrom(4));
    assert_eq!(read_step(4, 10, ReadEvent::Read(6)), ReadAction::ReadFrom(10));
    assert_eq!(read_step(9, 10, ReadEvent::Read(1)), ReadAction::ReadFrom(10));
}

#[test]
fn read_step_finishes_on_an_empty_read() {
    assert_eq!(read_step(0, 10, ReadEvent::Read(0)), ReadAction::Finish(0));
    assert_eq!(read_step(7, 10, ReadEvent::Read(0)), ReadAction::Finish(7));
    assert_eq!(read_step(10, 10, ReadEvent::Read(0)), ReadAction::Finish(10));
}

#[test]
fn read_step_retries_an_interrupted_read() {
    assert_eq!(read_step(0, 10, ReadEvent::Interrupted), ReadAction::ReadFrom(0));
    assert_eq!(read_step(7, 10, ReadEvent::Interrupted), ReadAction::ReadFrom(7));
}

#[test]
fn read_step_gives_up_on_a_failed_read() {
    assert_eq!(read_step(0, 10, ReadEvent::Failed), ReadAction::Fail);
    assert_eq!(read_step(7, 10, ReadEvent::Failed), ReadAction::Fail);
}

#[test]
fn conclude_takes_a_closed_sink_for_success() {
    assert_eq!(conclude(Err(Failure::BrokenPipe)), Ok(()));
}

#[test]
fn conclude_keeps_every_other_outcome() {
    assert_eq!(conclude(Ok(())), Ok(()));
    assert_eq!(conclude(Err(Failure::Io)), Err(Failure::Io));
    assert_eq!(
        conclude(Err(Failure::Decoding(DecodingErrorKind::InvalidLength))),
        Err(Failure::Decoding(DecodingErrorKind::InvalidLength))
    );
    assert_eq!(
        conclude(Err(Failure::Decoding(DecodingErrorKind::InvalidCharacter))),
        Err(Failure::Decoding(DecodingErrorKind::InvalidCharacter))
    );
}
