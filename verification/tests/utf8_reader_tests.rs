use yt_history::source::{ReadOutcome, ScriptedSource};
use yt_history::utf8_reader::{Error, Utf8Iter};

fn source_of(chunks: Vec<ReadOutcome>) -> ScriptedSource {
    ScriptedSource::new(chunks)
}

#[test]
fn test_empty_reader() {
    // a dry read first, then one byte arrives, like a pipe written to later
    let reader = source_of(vec![ReadOutcome::End, ReadOutcome::Data(vec![0x61])]);
    let mut iter = Utf8Iter::new(reader);
    assert_eq!(iter.next(), Err(Error::End));

    assert_eq!(iter.next(), Ok('a'));
    assert_eq!(iter.next(), Err(Error::End));
}

#[test]
fn test_len_1_reader() {
    let reader = source_of(vec![ReadOutcome::Data(vec![0x61])]);
    let mut iter = Utf8Iter::new(reader);

    assert_eq!(iter.next(), Ok('a'));
    assert_eq!(iter.next(), Err(Error::End));
}

#[test]
fn test_len_4_reader() {
    let reader = source_of(vec![ReadOutcome::Data(vec![0x61, 0x61, 0x61, 0x61])]);
    let mut iter = Utf8Iter::new(reader);

    assert_eq!(iter.next(), Ok('a'));
    assert_eq!(iter.next(), Ok('a'));
    assert_eq!(iter.next(), Ok('a'));
    assert_eq!(iter.next(), Ok('a'));
    assert_eq!(iter.next(), Err(Error::End));
}

#[test]
fn test_len_1_invalid_reader() {
    let reader = source_of(vec![ReadOutcome::Data(vec![0xC0])]);
    let mut iter = Utf8Iter::new(reader);

    assert_eq!(iter.next(), Err(Error::InvalidBytes(vec![0xC0])));
    assert_eq!(iter.next(), Err(Error::End));
}

#[test]
fn test_invalid_and_valid_reader() {
    let reader = source_of(vec![ReadOutcome::Data(vec![0xE0, 0x61])]);
    let mut iter = Utf8Iter::new(reader);

    assert_eq!(iter.next(), Err(Error::InvalidBytes(vec![0xE0])));
    assert_eq!(iter.next(), Ok('a'));
    assert_eq!(iter.next(), Err(Error::End));
}

#[test]
fn test_valid_and_invalid_reader() {
    let reader = source_of(vec![ReadOutcome::Data(vec![0x61, 0x61, 0x61, 0xC0])]);
    let mut iter = Utf8Iter::new(reader);

    assert_eq!(iter.next(), Ok('a'));
    assert_eq!(iter.next(), Ok('a'));
    assert_eq!(iter.next(), Ok('a'));
    assert_eq!(iter.next(), Err(Error::InvalidBytes(vec![0xC0])));
    assert_eq!(iter.next(), Err(Error::End));
}

#[test]
fn test_multibyte_split_across_reads() {
    // one four-byte character split across three reads decodes the same as
    // one read of all its bytes
    let reader = source_of(vec![
        ReadOutcome::Data(vec![0xF0]),
        ReadOutcome::Data(vec![0x9F, 0x98]),
        ReadOutcome::Data(vec![0x80]),
    ]);
    let mut iter = Utf8Iter::new(reader);
    assert_eq!(iter.next(), Ok('\u{1F600}'));
    assert_eq!(iter.next(), Err(Error::End));

    let whole = source_of(vec![ReadOutcome::Data(vec![0xF0, 0x9F, 0x98, 0x80])]);
    let mut iter2 = Utf8Iter::new(whole);
    assert_eq!(iter2.next(), Ok('\u{1F600}'));
    assert_eq!(iter2.next(), Err(Error::End));
}

#[test]
fn test_invalid_resumes_on_valid_bytes() {
    // a lone invalid byte is reported once, then decoding resumes
    let reader = source_of(vec![ReadOutcome::Data(vec![0xC0, 0xC3, 0xA9, 0x62])]);
    let mut iter = Utf8Iter::new(reader);
    assert_eq!(iter.next(), Err(Error::InvalidBytes(vec![0xC0])));
    assert_eq!(iter.next(), Ok('\u{e9}'));
    assert_eq!(iter.next(), Ok('b'));
    assert_eq!(iter.next(), Err(Error::End));
}

#[test]
fn test_read_failure_preserves_buffer() {
    // a failing read loses nothing buffered: the half-read character is
    // completed once data flows again
    let reader = source_of(vec![
        ReadOutcome::Data(vec![0xC3]),
        ReadOutcome::Failure(String::from("interrupted")),
        ReadOutcome::Data(vec![0xA9]),
    ]);
    let mut iter = Utf8Iter::new(reader);
    assert_eq!(iter.next(), Err(Error::IoError(String::from("interrupted"))));
    assert_eq!(iter.next(), Ok('\u{e9}'));
    assert_eq!(iter.next(), Err(Error::End));
}

#[test]
fn test_incomplete_tail_flushed_at_end() {
    // a trailing incomplete encoding is flushed as one invalid span once a
    // dry read arrives
    let reader = source_of(vec![ReadOutcome::Data(vec![0x61, 0xE2, 0x82])]);
    let mut iter = Utf8Iter::new(reader);
    assert_eq!(iter.next(), Ok('a'));
    assert_eq!(iter.next(), Err(Error::InvalidBytes(vec![0xE2, 0x82])));
    assert_eq!(iter.next(), Err(Error::End));
}
