use log_cruncher::lines::find_last_delimiter;
use log_cruncher::{Chunker, CruncherError, CHUNK_SIZE, LINE_DELIMITER, MAX_NUMBER_IN_FLIGHT_CHUNKS};

#[test]
fn constants_have_their_values() {
    assert_eq!(LINE_DELIMITER, b'\n');
    assert_eq!(CHUNK_SIZE, 1024 * 1024);
    assert_eq!(MAX_NUMBER_IN_FLIGHT_CHUNKS, 32);
}

#[test]
fn last_delimiter_is_found_from_the_end() {
    assert_eq!(find_last_delimiter(b""), None);
    assert_eq!(find_last_delimiter(b"abc"), None);
    assert_eq!(find_last_delimiter(b"\n"), Some(0));
    assert_eq!(find_last_delimiter(b"a\nb\nc"), Some(3));
    assert_eq!(find_last_delimiter(b"a\nb\n"), Some(3));
    assert_eq!(find_last_delimiter(b"\nabc"), Some(0));
}

#[test]
fn fresh_chunker_has_room_for_a_whole_chunk() {
    let chunker = Chunker::new(8);
    assert_eq!(chunker.room(), 8);
}

#[test]
fn empty_piece_ends_the_stream() {
    let mut chunker = Chunker::new(8);
    assert!(matches!(chunker.feed(b""), Ok(None)));
    assert_eq!(chunker.room(), 8);
}

#[test]
fn piece_is_cut_behind_its_last_delimiter() {
    let mut chunker = Chunker::new(8);
    let chunk = chunker.feed(b"ab\ncd\nef").unwrap().unwrap();
    assert_eq!(chunk, b"ab\ncd\n".to_vec());
    assert_eq!(chunker.room(), 6);
}

#[test]
fn pending_bytes_lead_the_next_chunk() {
    let mut chunker = Chunker::new(8);
    let first = chunker.feed(b"ab\ncd").unwrap().unwrap();
    assert_eq!(first, b"ab\n".to_vec());
    assert_eq!(chunker.room(), 6);
    let second = chunker.feed(b"ef\ng").unwrap().unwrap();
    assert_eq!(second, b"cdef\n".to_vec());
    assert_eq!(chunker.room(), 7);
    assert!(matches!(chunker.feed(b""), Ok(None)));
    assert_eq!(chunker.room(), 7);
}

#[test]
fn piece_that_ends_with_a_delimiter_leaves_nothing_pending() {
    let mut chunker = Chunker::new(4);
    let chunk = chunker.feed(b"abc\n").unwrap().unwrap();
    assert_eq!(chunk, b"abc\n".to_vec());
    assert_eq!(chunker.room(), 4);
}

#[test]
fn buffer_without_delimiter_is_a_failure() {
    let mut chunker = Chunker::new(4);
    match chunker.feed(b"abcd") {
        Err(CruncherError::GenericFailure(text)) => assert_eq!(text, "Corrupted file"),
        other => panic!("unexpected: {:?}", other),
    }
    assert_eq!(chunker.room(), 4);
}

#[test]
fn pending_bytes_without_a_delimiter_to_follow_are_a_failure() {
    let mut chunker = Chunker::new(4);
    let chunk = chunker.feed(b"a\nbc").unwrap().unwrap();
    assert_eq!(chunk, b"a\n".to_vec());
    assert_eq!(chunker.room(), 2);
    assert!(matches!(chunker.feed(b"de"), Err(CruncherError::GenericFailure(_))));
    assert_eq!(chunker.room(), 2);
}

#[test]
fn error_messages_name_the_kind_of_failure() {
    assert_eq!(CruncherError::GenericFailure("x".to_string()).message(), "error");
    let io = std::io::Error::new(std::io::ErrorKind::Other, "gone");
    assert_eq!(CruncherError::IOFailure(io).message(), "io error");
    let json = serde_json::from_slice::<serde_json::Value>(b"{").unwrap_err();
    assert_eq!(CruncherError::SerializationFailure(json).message(), "serialization error");
    match CruncherError::corrupted() {
        CruncherError::GenericFailure(text) => assert_eq!(text, "Corrupted file"),
        other => panic!("unexpected: {:?}", other),
    }
}
