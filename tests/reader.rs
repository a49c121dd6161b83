use homey_energy_dongle::framing::{extract_telegram, find_line_starting_with, find_subslice};
use homey_energy_dongle::reader::{RawTelegram, RawTelegramReader, RawTelegramStream};

fn contents(telegrams: &[RawTelegram]) -> Vec<Vec<u8>> {
    telegrams.iter().map(|t| t.contents.clone()).collect()
}

/// Pulls every telegram out of an adapter over `chunks`, the way a consumer
/// of the stream does: the queue first, then the next chunk.
fn pull_all(chunks: Vec<Vec<u8>>) -> Vec<Vec<u8>> {
    let mut stream = RawTelegramStream::new(chunks.into_iter());
    let mut out = vec![];
    loop {
        if let Some(t) = stream.next_ready() {
            out.push(t.contents);
            continue;
        }
        let mut next = None;
        while let Some(chunk) = stream.inner_mut().next() {
            if let Some(t) = stream.feed_chunk(&chunk) {
                next = Some(t);
                break;
            }
        }
        match next {
            Some(t) => out.push(t.contents),
            None => return out,
        }
    }
}

#[test]
fn test_telegram_reader() {
    {
        let mut reader = RawTelegramReader::new();
        let telegrams = reader.feed(b"/test\r\n!AAAA\r\n");
        assert_eq!(1, telegrams.len());
    }

    {
        let mut reader = RawTelegramReader::new();
        let telegrams = reader.feed(b"DDDD\r\n/test\r\n!AAAA\r\nADDDD");
        assert_eq!(1, telegrams.len());
    }

    {
        let mut reader = RawTelegramReader::new();
        let telegrams = reader.feed(b"DDDD\r\n/test\r\n!AAAA\r\nDDDD\r\n/test2");
        assert_eq!(1, telegrams.len());
    }

    {
        let mut reader = RawTelegramReader::new();
        let telegrams = reader.feed(b"DDDD");
        assert!(telegrams.is_empty());
        let telegrams = reader.feed(b"\r\n/");
        assert!(telegrams.is_empty());
        let telegrams = reader.feed(b"test\r\n!AAAA");
        assert!(telegrams.is_empty());
        let telegrams = reader.feed(b"\r\nDDDD\r\n/test2");
        assert_eq!(1, telegrams.len());
    }
}

#[test]
fn single_telegram_is_returned_whole() {
    let mut reader = RawTelegramReader::new();
    let telegrams = reader.feed(b"/test\r\n!AAAA\r\n");
    assert_eq!(contents(&telegrams), vec![b"/test\r\n!AAAA\r\n".to_vec()]);
    assert_eq!(telegrams[0].as_bytes(), b"/test\r\n!AAAA\r\n");
    let bytes: &[u8] = telegrams[0].as_ref();
    assert_eq!(bytes, b"/test\r\n!AAAA\r\n");
    assert!(reader.pending_bytes().is_empty());
}

#[test]
fn noise_around_a_telegram_is_dropped() {
    let mut reader = RawTelegramReader::new();
    let telegrams = reader.feed(b"DDDD\r\n/test\r\n!AAAA\r\nADDDD");
    assert_eq!(contents(&telegrams), vec![b"/test\r\n!AAAA\r\n".to_vec()]);
    // the last attempt finds no start in "ADDDD" and keeps nothing
    assert!(reader.pending_bytes().is_empty());
}

#[test]
fn partial_telegram_after_noise_is_kept() {
    let mut reader = RawTelegramReader::new();
    let telegrams = reader.feed(b"DDDD\r\n/test\r\n!AAAA\r\nDDDD\r\n/test2");
    assert_eq!(contents(&telegrams), vec![b"/test\r\n!AAAA\r\n".to_vec()]);
    assert_eq!(reader.pending_bytes(), b"/test2");
}

#[test]
fn telegram_across_four_chunks() {
    let mut reader = RawTelegramReader::new();
    assert!(reader.feed(b"DDDD").is_empty());
    assert!(reader.feed(b"\r\n/").is_empty());
    assert_eq!(reader.pending_bytes(), b"/");
    assert!(reader.feed(b"test\r\n!AAAA").is_empty());
    let telegrams = reader.feed(b"\r\nDDDD\r\n/test2");
    assert_eq!(contents(&telegrams), vec![b"/test\r\n!AAAA\r\n".to_vec()]);
    assert_eq!(reader.pending_bytes(), b"/test2");
}

#[test]
fn several_telegrams_in_one_chunk_in_order() {
    let mut reader = RawTelegramReader::new();
    let telegrams = reader.feed(b"/a\r\n!1\r\n/b\r\n!2\r\nx\r\n/c\r\n!3\r\n/d");
    assert_eq!(
        contents(&telegrams),
        vec![b"/a\r\n!1\r\n".to_vec(), b"/b\r\n!2\r\n".to_vec(), b"/c\r\n!3\r\n".to_vec()]
    );
    assert_eq!(reader.pending_bytes(), b"/d");
}

#[test]
fn one_byte_at_a_time_matches_all_at_once() {
    let input: &[u8] = b"noise\r\n/x\r\nbody\r\n!CRC1\r\n/y\r\n!CRC2\r\nrest\r\n/z\r\n!C";
    let mut whole = RawTelegramReader::new();
    let all_at_once = contents(&whole.feed(input));
    let mut split = RawTelegramReader::new();
    let mut byte_by_byte = vec![];
    for b in input {
        byte_by_byte.extend(contents(&split.feed(&[*b])));
    }
    assert_eq!(all_at_once, byte_by_byte);
    assert_eq!(all_at_once.len(), 2);
    assert_eq!(whole.pending_bytes(), split.pending_bytes());
    assert_eq!(whole.pending_bytes(), b"/z\r\n!C");
}

#[test]
fn cut_inside_a_line_before_a_start_byte() {
    let mut split = RawTelegramReader::new();
    assert!(split.feed(b"DDDD").is_empty());
    assert_eq!(split.feed(b"/test\r\n!AAAA\r\n").len(), 1);
    let mut whole = RawTelegramReader::new();
    assert!(whole.feed(b"DDDD/test\r\n!AAAA\r\n").is_empty());
    assert!(whole.pending_bytes().is_empty());
}

#[test]
fn empty_chunk_changes_nothing() {
    let mut reader = RawTelegramReader::new();
    assert!(reader.feed(b"").is_empty());
    assert!(reader.pending_bytes().is_empty());
    assert!(reader.feed(b"xx\r\n/test\r\n!AA").is_empty());
    assert_eq!(reader.pending_bytes(), b"/test\r\n!AA");
    assert!(reader.feed(b"").is_empty());
    assert_eq!(reader.pending_bytes(), b"/test\r\n!AA");
}

#[test]
fn noise_without_start_is_dropped() {
    let mut reader = RawTelegramReader::new();
    assert!(reader.feed(b"garbage !x\r\nmore/ garbage\r\n").is_empty());
    assert!(reader.pending_bytes().is_empty());
    let telegrams = reader.feed(b"/ok\r\n!FF\r\n");
    assert_eq!(contents(&telegrams), vec![b"/ok\r\n!FF\r\n".to_vec()]);
}

#[test]
fn noise_is_never_part_of_a_telegram() {
    let mut reader = RawTelegramReader::new();
    let telegrams = reader.feed(b"!x\r\n/a/b\r\n!y\r\n");
    assert_eq!(contents(&telegrams), vec![b"/a/b\r\n!y\r\n".to_vec()]);
}

#[test]
fn end_line_without_line_break_waits() {
    let mut reader = RawTelegramReader::new();
    assert!(reader.feed(b"/a\r\n!CRC\r").is_empty());
    assert_eq!(reader.pending_bytes(), b"/a\r\n!CRC\r");
    let telegrams = reader.feed(b"\n");
    assert_eq!(contents(&telegrams), vec![b"/a\r\n!CRC\r\n".to_vec()]);
    assert!(reader.pending_bytes().is_empty());
}

#[test]
fn stream_yields_five_telegrams_in_order() {
    let chunks: Vec<Vec<u8>> = vec![
        b"junk\r\n/t1\r\n!1\r\n/t2".to_vec(),
        b"\r\n!2\r\n".to_vec(),
        b"".to_vec(),
        b"/t3\r\n!3\r\n/t4\r\n!4\r\n/t5\r\n".to_vec(),
        b"!5".to_vec(),
        b"\r\n/t6".to_vec(),
    ];
    let out = pull_all(chunks);
    assert_eq!(
        out,
        vec![
            b"/t1\r\n!1\r\n".to_vec(),
            b"/t2\r\n!2\r\n".to_vec(),
            b"/t3\r\n!3\r\n".to_vec(),
            b"/t4\r\n!4\r\n".to_vec(),
            b"/t5\r\n!5\r\n".to_vec(),
        ]
    );
}

#[test]
fn stream_over_single_chunk_with_five_telegrams() {
    let chunk = b"/1\r\n!a\r\n/2\r\n!b\r\n/3\r\n!c\r\n/4\r\n!d\r\n/5\r\n!e\r\n".to_vec();
    let out = pull_all(vec![chunk]);
    assert_eq!(out.len(), 5);
    assert_eq!(out[4], b"/5\r\n!e\r\n".to_vec());
}

#[test]
fn stream_over_empty_source_is_empty() {
    assert!(pull_all(vec![]).is_empty());
}

#[test]
fn find_subslice_first_match() {
    assert_eq!(find_subslice(b"abcabc", b"bc"), Some(1));
    assert_eq!(find_subslice(b"abcabc", b"cb"), None);
    assert_eq!(find_subslice(b"abc", b""), None);
    assert_eq!(find_subslice(b"ab", b"abc"), None);
    assert_eq!(find_subslice(b"abc", b"abc"), Some(0));
}

#[test]
fn line_start_only_at_line_begin() {
    assert_eq!(find_line_starting_with(b"/x", b'/'), Some(0));
    assert_eq!(find_line_starting_with(b"a/b\n/c", b'/'), Some(4));
    assert_eq!(find_line_starting_with(b"a/b\r\n", b'/'), None);
    assert_eq!(find_line_starting_with(b"", b'/'), None);
}

#[test]
fn extract_telegram_cases() {
    assert_eq!(extract_telegram(b"no start here"), (None, &b""[..]));
    assert_eq!(extract_telegram(b"x\n/a\r\nb"), (None, &b"/a\r\nb"[..]));
    assert_eq!(extract_telegram(b"/a\r\n!b"), (None, &b"/a\r\n!b"[..]));
    assert_eq!(
        extract_telegram(b"z\n/a\r\n!b\r\ntail"),
        (Some(&b"/a\r\n!b\r\n"[..]), &b"tail"[..])
    );
}

#[test]
fn bytes_are_conserved_in_order() {
    let input: &[u8] = b"ab\r\n/x\r\n!1\r\nzz\r\n/y\r\n!2\r\n\r\n/w";
    let mut reader = RawTelegramReader::new();
    let telegrams = contents(&reader.feed(input));
    assert_eq!(telegrams, vec![b"/x\r\n!1\r\n".to_vec(), b"/y\r\n!2\r\n".to_vec()]);
    let rebuilt = [
        &b"ab\r\n"[..],
        &telegrams[0],
        &b"zz\r\n"[..],
        &telegrams[1],
        &b"\r\n"[..],
        reader.pending_bytes(),
    ]
    .concat();
    assert_eq!(rebuilt, input);
}
