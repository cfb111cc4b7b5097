use std::io::{self, ErrorKind, Read};

use iter_read::IterRead;

#[derive(Debug)]
struct Refused;

impl From<Refused> for io::Error {
    fn from(_: Refused) -> io::Error {
        io::Error::new(ErrorKind::PermissionDenied, "refused")
    }
}

fn all<R: Read>(mut reader: R) -> Vec<u8> {
    let mut out = Vec::new();
    reader.read_to_end(&mut out).unwrap();
    out
}

#[test]
fn arrays_owned_and_borrowed() {
    let items: Vec<[u8; 3]> = vec![[1, 2, 3], [4, 5, 6], [7, 8, 9]];
    assert_eq!(all(IterRead::new(items.iter())), [1, 2, 3, 4, 5, 6, 7, 8, 9]);
    assert_eq!(all(IterRead::new(items.into_iter())), [1, 2, 3, 4, 5, 6, 7, 8, 9]);
}

#[test]
fn an_owned_array_is_drained_over_several_reads() {
    let items: Vec<[u8; 5]> = vec![[1, 2, 3, 4, 5], [6, 7, 8, 9, 10]];
    let mut reader = IterRead::new(items.into_iter());
    let mut target = [0u8; 2];
    let mut seen = Vec::new();
    loop {
        let n = reader.read(&mut target).unwrap();
        if n == 0 {
            break;
        }
        seen.push(target[..n].to_vec());
    }
    let expected: Vec<Vec<u8>> =
        vec![vec![1, 2], vec![3, 4], vec![5], vec![6, 7], vec![8, 9], vec![10]];
    assert_eq!(seen, expected);
}

#[test]
fn arrays_of_length_zero_are_empty_items() {
    let items: Vec<[u8; 0]> = vec![[], [], []];
    let mut reader = IterRead::new(items.into_iter());
    let mut target = [3u8; 2];
    assert_eq!(reader.read(&mut target).unwrap(), 0);
    assert_eq!(target, [3, 3]);
}

#[test]
fn text_is_read_as_its_utf8_bytes() {
    let items: Vec<String> = vec!["h\u{e9}".to_string(), "\u{20ac}".to_string(), "\u{1f600}!".to_string()];
    let expected: Vec<u8> = vec![
        0x68, 0xc3, 0xa9, 0xe2, 0x82, 0xac, 0xf0, 0x9f, 0x98, 0x80, 0x21,
    ];
    assert_eq!(all(IterRead::new(items.iter())), expected);
    assert_eq!(all(IterRead::new(items.iter().map(|s| s.as_str()))), expected);
    assert_eq!(all(IterRead::new(items.into_iter())), expected);
}

#[test]
fn a_character_may_be_split_between_two_reads() {
    let items: Vec<String> = vec!["\u{20ac}".to_string()];
    let mut reader = IterRead::new(items.into_iter());
    let mut target = [0u8; 2];
    assert_eq!(reader.read(&mut target).unwrap(), 2);
    assert_eq!(target, [0xe2, 0x82]);
    assert_eq!(reader.read(&mut target).unwrap(), 1);
    assert_eq!(target, [0xac, 0x82]);
    assert_eq!(reader.read(&mut target).unwrap(), 0);
}

#[test]
fn borrowed_slices_and_vectors() {
    let items: Vec<Vec<u8>> = vec![vec![1], vec![], vec![2, 3]];
    assert_eq!(all(IterRead::new(items.iter())), [1, 2, 3]);
    assert_eq!(all(IterRead::new(items.iter().map(|v| &v[..]))), [1, 2, 3]);
}

#[test]
fn fallible_items_of_every_kind() {
    let bytes: Vec<u8> = vec![1, 2];
    let items: Vec<Result<&u8, Refused>> = bytes.iter().map(Ok).collect();
    assert_eq!(all(IterRead::new(items.into_iter())), [1, 2]);

    let items: Vec<Result<&str, Refused>> = vec![Ok("a"), Ok(""), Ok("bc")];
    assert_eq!(all(IterRead::new(items.into_iter())), b"abc");

    let items: Vec<Result<String, Refused>> = vec![Ok("a".to_string()), Ok("bc".to_string())];
    assert_eq!(all(IterRead::new(items.into_iter())), b"abc");

    let items: Vec<Result<[u8; 2], Refused>> = vec![Ok([1, 2]), Ok([3, 4])];
    assert_eq!(all(IterRead::new(items.into_iter())), [1, 2, 3, 4]);

    let chunk = [5u8, 6];
    let items: Vec<Result<&[u8], Refused>> = vec![Ok(&chunk[..]), Ok(&chunk[..1])];
    assert_eq!(all(IterRead::new(items.into_iter())), [5, 6, 5]);
}

#[test]
fn a_failure_is_converted_into_an_io_error() {
    let items: Vec<Result<&u8, Refused>> = vec![Err(Refused)];
    let mut reader = IterRead::new(items.into_iter());
    let mut target = [0u8; 1];
    let failure = reader.read(&mut target).unwrap_err();
    assert_eq!(failure.kind(), ErrorKind::PermissionDenied);
    assert_eq!(failure.to_string(), "refused");

    let items: Vec<Result<String, Refused>> = vec![Ok(String::new()), Err(Refused)];
    let mut reader = IterRead::new(items.into_iter());
    let failure = reader.read(&mut target).unwrap_err();
    assert_eq!(failure.kind(), ErrorKind::PermissionDenied);
}

#[test]
fn io_errors_pass_through_unchanged() {
    let items: Vec<io::Result<u8>> = vec![Ok(1), Err(io::Error::new(ErrorKind::TimedOut, "late"))];
    let mut reader = IterRead::new(items.into_iter());
    let mut target = [0u8; 1];
    assert_eq!(reader.read(&mut target).unwrap(), 1);
    let failure = reader.read(&mut target).unwrap_err();
    assert_eq!(failure.kind(), ErrorKind::TimedOut);
    assert_eq!(failure.to_string(), "late");
}

#[test]
fn a_large_item_is_drained_in_pieces_of_the_target_size() {
    let item: Vec<u8> = (0..100u8).collect();
    let mut reader = IterRead::new(vec![item.clone()].into_iter());
    let mut target = [0u8; 33];
    let mut counts = Vec::new();
    let mut out = Vec::new();
    loop {
        let n = reader.read(&mut target).unwrap();
        if n == 0 {
            break;
        }
        counts.push(n);
        out.extend_from_slice(&target[..n]);
    }
    assert_eq!(counts, [33, 33, 33, 1]);
    assert_eq!(out, item);
}

#[test]
fn a_read_writes_nothing_beyond_its_count() {
    let items: Vec<&str> = vec!["ab"];
    let mut reader = IterRead::new(items.into_iter());
    let mut target = [9u8; 5];
    assert_eq!(reader.read(&mut target).unwrap(), 2);
    assert_eq!(target, [b'a', b'b', 9, 9, 9]);
}

#[test]
fn into_inner_gives_back_the_source_and_drops_the_carry() {
    let items: Vec<&str> = vec!["abcd", "ef", "g"];
    let mut reader = IterRead::new(items.into_iter());
    let mut target = [0u8; 2];
    assert_eq!(reader.read(&mut target).unwrap(), 2);
    assert_eq!(target, *b"ab");
    let mut inner = reader.into_inner();
    assert_eq!(inner.next(), Some("ef"));
    assert_eq!(inner.next(), Some("g"));
    assert_eq!(inner.next(), None);
    assert_eq!(inner.next(), None);
}

#[test]
fn into_inner_of_a_fresh_adapter_is_the_whole_source() {
    let bytes: Vec<u8> = vec![1, 2, 3];
    let reader = IterRead::new(bytes.into_iter());
    let rest: Vec<u8> = reader.into_inner().collect();
    assert_eq!(rest, [1, 2, 3]);
}

#[test]
fn an_empty_source_reads_as_the_end() {
    let none: Vec<u8> = Vec::new();
    let mut reader = IterRead::new(none.into_iter());
    let mut target = [1u8; 2];
    assert_eq!(reader.read(&mut target).unwrap(), 0);
    assert_eq!(target, [1, 1]);

    let none: Vec<String> = Vec::new();
    let mut reader = IterRead::new(none.into_iter());
    assert_eq!(reader.read(&mut target).unwrap(), 0);
    assert_eq!(target, [1, 1]);
}
