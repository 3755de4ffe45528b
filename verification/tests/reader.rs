use flowcase_guac::instruction::{encode_instruction, ParseError};
use flowcase_guac::reader::{GuacdReader, ReadError, ReadEvent, ReadStep};

/// Reads one instruction, with a read for each chunk and none after the last.
fn next(reader: &mut GuacdReader, chunks: &mut Vec<Vec<u8>>) -> Result<Option<Vec<String>>, ReadError> {
    let mut event = ReadEvent::Resume;
    loop {
        match reader.next_instruction(event)? {
            ReadStep::Instruction(elements) => return Ok(Some(elements)),
            ReadStep::End => return Ok(None),
            ReadStep::Read => {
                let chunk = if chunks.is_empty() {
                    Vec::new()
                } else {
                    chunks.remove(0)
                };
                event = ReadEvent::Received(chunk);
            }
        }
    }
}

#[test]
fn reader_reassembles_split_instructions() {
    // Two instructions across a chunk boundary.
    let mut chunks = vec![b"6.select,3.".to_vec(), b"vnc;5.ready,1.x;".to_vec()];
    let mut r = GuacdReader::new();

    let first = next(&mut r, &mut chunks).unwrap().unwrap();
    let second = next(&mut r, &mut chunks).unwrap().unwrap();
    let third = next(&mut r, &mut chunks).unwrap();

    assert_eq!(first, vec!["select", "vnc"]);
    assert_eq!(second, vec!["ready", "x"]);
    assert_eq!(third, None); // EOF
}

#[test]
fn chunks_of_any_size_give_the_same_instructions() {
    let mut raw = encode_instruction(&["args", "hôte", "port"]).into_bytes();
    raw.extend_from_slice(encode_instruction(&["ready", "été"]).as_bytes());
    for size in 1..=raw.len() {
        let mut chunks: Vec<Vec<u8>> = raw.chunks(size).map(|c| c.to_vec()).collect();
        let mut r = GuacdReader::new();
        assert_eq!(next(&mut r, &mut chunks).unwrap().unwrap(), vec!["args", "hôte", "port"]);
        assert_eq!(next(&mut r, &mut chunks).unwrap().unwrap(), vec!["ready", "été"]);
        assert_eq!(next(&mut r, &mut chunks).unwrap(), None);
    }
}

#[test]
fn end_inside_an_instruction_is_an_error() {
    let mut r = GuacdReader::new();
    let mut chunks = vec![b"5.ready,".to_vec(), b"3.ab".to_vec()];
    let err = next(&mut r, &mut chunks).unwrap_err();
    assert!(matches!(err, ReadError::ClosedMidInstruction { pending: 12 }));
    assert_eq!(err.message(), "guacd closed mid-instruction; 12 bytes pending");
}

#[test]
fn malformed_stream_is_an_error() {
    let mut r = GuacdReader::new();
    let err = next(&mut r, &mut vec![b"x.y;".to_vec()]).unwrap_err();
    assert!(matches!(err, ReadError::Malformed(ParseError::LengthNotInteger { .. })));
    assert_eq!(err.message(), "instruction length prefix not an integer: \"x\"");
}

#[test]
fn errors_do_not_depend_on_the_chunks_either() {
    let raw = "1.é;1.a|".as_bytes();
    for size in 1..=raw.len() {
        let mut chunks: Vec<Vec<u8>> = raw.chunks(size).map(|c| c.to_vec()).collect();
        let mut r = GuacdReader::new();
        assert_eq!(next(&mut r, &mut chunks).unwrap().unwrap(), vec!["é"]);
        let err = next(&mut r, &mut chunks).unwrap_err();
        assert!(matches!(err, ReadError::Malformed(ParseError::UnexpectedByte { byte: b'|' })));
    }
}

#[test]
fn instruction_is_yielded_before_the_rest_is_met() {
    let mut r = GuacdReader::new();
    let mut chunks = vec![b"1.x;\xc3".to_vec()];
    assert_eq!(next(&mut r, &mut chunks).unwrap().unwrap(), vec!["x"]);
    let err = next(&mut r, &mut chunks).unwrap_err();
    assert!(matches!(err, ReadError::ClosedMidInstruction { pending: 1 }));
}

#[test]
fn any_bytes_after_the_instructions_give_the_same_in_any_chunks() {
    let raw = b"1.x;2.\xc3\xa9a;1.\xff\xff";
    for size in 1..=raw.len() {
        let mut chunks: Vec<Vec<u8>> = raw.chunks(size).map(|c| c.to_vec()).collect();
        let mut r = GuacdReader::new();
        assert_eq!(next(&mut r, &mut chunks).unwrap().unwrap(), vec!["x"]);
        assert_eq!(next(&mut r, &mut chunks).unwrap().unwrap(), vec!["éa"]);
        let err = next(&mut r, &mut chunks).unwrap_err();
        assert_eq!(
            err.message(),
            "instruction value not utf-8: invalid utf-8 sequence of 1 bytes from index 0"
        );
    }
}

#[test]
fn clean_end_stays_one() {
    let mut r = GuacdReader::new();
    let mut chunks = vec![b"1.x;".to_vec()];
    assert!(next(&mut r, &mut chunks).unwrap().is_some());
    for _ in 0..3 {
        assert_eq!(next(&mut r, &mut chunks).unwrap(), None);
    }
}

#[test]
fn bytes_after_the_last_instruction_are_handed_over() {
    let mut r = GuacdReader::new();
    assert_eq!(next(&mut r, &mut vec![b"5.ready;4.na\xc3".to_vec()]).unwrap().unwrap(), vec!["ready"]);
    assert_eq!(r.into_pending(), b"4.na\xc3");
    assert!(GuacdReader::new().into_pending().is_empty());
}

#[test]
fn lengths_written_otherwise_are_read_in_any_chunks_and_keep_what_follows() {
    let raw = b"+4.args,02.ab;005.ready;4.na\xc3\xff";
    for size in 1..=raw.len() {
        let mut chunks: Vec<Vec<u8>> = raw.chunks(size).map(|c| c.to_vec()).collect();
        let mut r = GuacdReader::new();
        assert_eq!(next(&mut r, &mut chunks).unwrap().unwrap(), vec!["args", "ab"]);
        assert_eq!(next(&mut r, &mut chunks).unwrap().unwrap(), vec!["ready"]);
        let mut left = r.into_pending();
        left.extend(chunks.concat());
        assert_eq!(left, b"4.na\xc3\xff");
    }
}

#[test]
fn mistake_before_bytes_that_are_no_text_fails_in_any_chunks() {
    let raw = b"1.x;1.a|\xc3";
    for size in 1..=raw.len() {
        let mut chunks: Vec<Vec<u8>> = raw.chunks(size).map(|c| c.to_vec()).collect();
        let mut r = GuacdReader::new();
        assert_eq!(next(&mut r, &mut chunks).unwrap().unwrap(), vec!["x"]);
        assert!(next(&mut r, &mut chunks).is_err());
    }
}
