use std::io::{self, ErrorKind, Read};

use iter_read::{IterRead, IterReadItem};

#[derive(Debug)]
struct Broken(u32);

impl From<Broken> for io::Error {
    fn from(e: Broken) -> io::Error {
        io::Error::new(ErrorKind::InvalidData, format!("broken {}", e.0))
    }
}

/// Reads with targets of the given size until a read returns no bytes or
/// fails. Returns the bytes of each successful read and the failure, if any.
fn drain<E: IterReadItem, I: Iterator<Item = E>>(
    reader: &mut IterRead<E, I>,
    size: usize,
) -> (Vec<Vec<u8>>, Option<io::Error>) {
    let mut spans = Vec::new();
    let mut target = vec![0u8; size];
    loop {
        match reader.read(&mut target) {
            Ok(0) => return (spans, None),
            Ok(n) => spans.push(target[..n].to_vec()),
            Err(e) => return (spans, Some(e)),
        }
    }
}

fn words() -> Vec<&'static str> {
    vec!["abc", "", "", "d", "efghijklmnopqrs", "tuv"]
}

#[test]
fn concatenation_with_targets_of_mixed_sizes() {
    let items: Vec<Vec<u8>> = vec![b"hello".to_vec(), b" ".to_vec(), b"wide world".to_vec()];
    let mut reader = IterRead::new(items.into_iter());
    let sizes = [0usize, 1, 0, 3, 1, 7, 2, 1024, 5];
    let mut out = Vec::new();
    for size in sizes {
        let mut target = vec![0u8; size];
        let n = reader.read(&mut target).unwrap();
        out.extend_from_slice(&target[..n]);
    }
    assert_eq!(out, b"hello wide world");
}

#[test]
fn each_read_returns_bytes_of_one_item_only() {
    let mut reader = IterRead::new(words().into_iter());
    let (spans, failure) = drain(&mut reader, 4);
    assert!(failure.is_none());
    let expected: Vec<Vec<u8>> = vec![
        b"abc".to_vec(),
        b"d".to_vec(),
        b"efgh".to_vec(),
        b"ijkl".to_vec(),
        b"mnop".to_vec(),
        b"qrs".to_vec(),
        b"tuv".to_vec(),
    ];
    assert_eq!(spans, expected);
}

#[test]
fn output_does_not_depend_on_the_target_size() {
    for size in [1usize, 3, 7, 1024] {
        let mut reader = IterRead::new(words().into_iter());
        let (spans, failure) = drain(&mut reader, size);
        assert!(failure.is_none());
        assert_eq!(spans.concat(), b"abcdefghijklmnopqrstuv");
    }
    for size in [1usize, 3, 7, 1024] {
        let bytes: Vec<u8> = (0..=255).collect();
        let mut reader = IterRead::new(bytes.iter());
        let (spans, failure) = drain(&mut reader, size);
        assert!(failure.is_none());
        assert_eq!(spans.concat(), bytes);
    }
}

#[test]
fn empty_items_change_nothing() {
    let plain: Vec<&str> = vec!["ab", "cde", "f"];
    let padded: Vec<&str> = vec!["", "", "ab", "", "cde", "", "", "", "f", ""];
    for size in [1usize, 2, 5] {
        let mut reader = IterRead::new(plain.clone().into_iter());
        let (plain_spans, _) = drain(&mut reader, size);
        let mut reader = IterRead::new(padded.clone().into_iter());
        let (padded_spans, _) = drain(&mut reader, size);
        assert_eq!(plain_spans, padded_spans);
        assert_eq!(padded_spans.concat(), b"abcdef");
    }
}

#[test]
fn a_thousand_empty_items_are_skipped_in_one_read() {
    let mut items: Vec<Vec<u8>> = vec![Vec::new(); 1000];
    items.push(vec![9, 8]);
    let mut reader = IterRead::new(items.into_iter());
    let mut target = [0u8; 4];
    assert_eq!(reader.read(&mut target).unwrap(), 2);
    assert_eq!(target, [9, 8, 0, 0]);
    assert_eq!(reader.read(&mut target).unwrap(), 0);
}

#[test]
fn only_empty_items_read_as_the_end() {
    let items: Vec<&str> = vec!["", "", ""];
    let mut reader = IterRead::new(items.into_iter());
    let mut target = [7u8; 4];
    assert_eq!(reader.read(&mut target).unwrap(), 0);
    assert_eq!(target, [7, 7, 7, 7]);
}

#[test]
fn end_of_stream_stays() {
    let items: Vec<Vec<u8>> = vec![vec![1, 2, 3]];
    let mut reader = IterRead::new(items.into_iter());
    let mut target = [0u8; 8];
    assert_eq!(reader.read(&mut target).unwrap(), 3);
    for size in [8usize, 1, 0, 3] {
        assert_eq!(reader.read(&mut target[..size]).unwrap(), 0);
    }
    assert_eq!(target, [1, 2, 3, 0, 0, 0, 0, 0]);

    let bytes: Vec<u8> = vec![5];
    let mut reader = IterRead::new(bytes.into_iter());
    assert_eq!(reader.read(&mut target).unwrap(), 1);
    assert_eq!(reader.read(&mut target).unwrap(), 0);
    assert_eq!(reader.read(&mut target).unwrap(), 0);
}

/// A source that yields an item again after it has returned `None`.
struct Flicker {
    calls: u32,
}

impl Iterator for Flicker {
    type Item = u8;

    fn next(&mut self) -> Option<u8> {
        self.calls += 1;
        match self.calls {
            1 => Some(b'x'),
            2 => None,
            _ => Some(b'y'),
        }
    }
}

#[test]
fn the_source_is_not_asked_again_after_its_end() {
    let mut reader = IterRead::new(Flicker { calls: 0 });
    let mut target = [0u8; 4];
    assert_eq!(reader.read(&mut target).unwrap(), 1);
    assert_eq!(target[0], b'x');
    assert_eq!(reader.read(&mut target).unwrap(), 0);
    assert_eq!(reader.read(&mut target).unwrap(), 0);
    let mut inner = reader.into_inner();
    assert_eq!(inner.next(), None);
}

#[test]
fn an_empty_target_reads_nothing_and_loses_nothing() {
    let items: Vec<&str> = vec!["xy", "z"];
    let mut reader = IterRead::new(items.into_iter());
    let mut none: [u8; 0] = [];
    assert_eq!(reader.read(&mut none).unwrap(), 0);
    assert_eq!(reader.read(&mut none).unwrap(), 0);
    let (spans, failure) = drain(&mut reader, 8);
    assert!(failure.is_none());
    assert_eq!(spans, vec![b"xy".to_vec(), b"z".to_vec()]);

    let bytes: Vec<u8> = vec![1, 2];
    let mut reader = IterRead::new(bytes.into_iter());
    assert_eq!(reader.read(&mut none).unwrap(), 0);
    let (spans, _) = drain(&mut reader, 8);
    assert_eq!(spans, vec![vec![1u8, 2]]);
}

#[test]
fn failure_comes_after_the_items_before_it() {
    for size in [1usize, 2, 3, 64] {
        let items: Vec<Result<&str, Broken>> =
            vec![Ok("alpha"), Ok("be"), Err(Broken(3)), Ok("gamma")];
        let mut reader = IterRead::new(items.into_iter());
        let (spans, failure) = drain(&mut reader, size);
        assert_eq!(spans.concat(), b"alphabe");
        let failure = failure.unwrap();
        assert_eq!(failure.kind(), ErrorKind::InvalidData);
        assert_eq!(failure.to_string(), "broken 3");
        let (spans, failure) = drain(&mut reader, size);
        assert!(failure.is_none());
        assert_eq!(spans.concat(), b"gamma");
    }
}

#[test]
fn a_failing_read_leaves_the_target_alone_for_chunked_items() {
    let items: Vec<Result<Vec<u8>, Broken>> = vec![Ok(vec![]), Err(Broken(1)), Ok(vec![4])];
    let mut reader = IterRead::new(items.into_iter());
    let mut target = [7u8; 3];
    assert!(reader.read(&mut target).is_err());
    assert_eq!(target, [7, 7, 7]);
    assert_eq!(reader.read(&mut target).unwrap(), 1);
    assert_eq!(target, [4, 7, 7]);
}

#[test]
fn fallible_bytes_fail_where_the_failure_stands() {
    let items = || -> Vec<Result<u8, Broken>> { vec![Ok(b'a'), Ok(b'b'), Err(Broken(7)), Ok(b'd')] };
    for size in [1usize, 2] {
        let mut reader = IterRead::new(items().into_iter());
        let (spans, failure) = drain(&mut reader, size);
        assert_eq!(spans.concat(), b"ab");
        assert_eq!(failure.unwrap().to_string(), "broken 7");
        let (spans, failure) = drain(&mut reader, size);
        assert!(failure.is_none());
        assert_eq!(spans.concat(), b"d");
    }
}

#[test]
fn fallible_bytes_fail_in_the_read_that_meets_the_failure() {
    let items: Vec<Result<u8, Broken>> = vec![Ok(b'a'), Ok(b'b'), Err(Broken(7)), Ok(b'd')];
    let mut reader = IterRead::new(items.into_iter());
    let mut target = [0u8; 3];
    let failure = reader.read(&mut target).unwrap_err();
    assert_eq!(failure.to_string(), "broken 7");
    assert_eq!(target, [b'a', b'b', 0]);
    assert_eq!(reader.read(&mut target).unwrap(), 1);
    assert_eq!(target, [b'd', b'b', 0]);
    assert_eq!(reader.read(&mut target).unwrap(), 0);
}

#[test]
fn single_bytes_fill_a_target_of_three() {
    let source = vec![1, 2, 7, 42, 123];
    let mut reader = IterRead::new(source.iter());
    let mut buf = vec![0; 3];
    assert_eq!(reader.read(&mut buf).unwrap(), 3);
    assert_eq!(buf, b"\x01\x02\x07");
    assert_eq!(reader.read(&mut buf).unwrap(), 2);
    assert_eq!(buf, [42, 123, 7]);
    assert_eq!(reader.read(&mut buf).unwrap(), 0);
}

#[test]
fn read_exact_on_single_bytes() {
    let source = vec![1, 2, 7, 42, 123];
    let mut reader = IterRead::new(source.iter());
    let mut buf = vec![0; 3];
    reader.read_exact(&mut buf).unwrap();
    assert_eq!(buf, b"\x01\x02\x07");
}

#[test]
fn chunks_with_empty_items_give_the_alphabet_head() {
    for size in [1usize, 2, 3, 5, 15, 16, 100] {
        let mut reader = IterRead::new(words().into_iter());
        let mut out = Vec::new();
        let mut target = vec![0u8; size];
        loop {
            let n = reader.read(&mut target).unwrap();
            if n == 0 {
                break;
            }
            out.extend_from_slice(&target[..n]);
        }
        assert_eq!(out, b"abcdefghijklmnopqrstuv");
    }
}
