use appleargs::bytes::position;
use appleargs::capture::capture;
use appleargs::{apple_args, apple_args_os};

#[test]
fn smoke_check() {
    let snapshot: &[&[u8]] = &[
        b"executable_path=/usr/local/bin/demo",
        b"ptr_munge=",
        b"main_stack=",
        b"executable_file=0x1a01000009,0x5f2c3d",
        b"th_port=0x103",
    ];
    let args = apple_args(snapshot);
    assert_ne!(args.clone().count(), 0);

    let mut args = args;
    while let Some(arg) = args.next() {
        println!("Arg: {arg:?}");
    }

    let args = apple_args_os(snapshot);
    assert_ne!(!args.count(), 0);
}

#[test]
fn raw_forward_backward_and_len() {
    let snapshot: &[&[u8]] = &[b"one", b"two", b"three"];
    let mut it = apple_args_os(snapshot);
    assert_eq!(it.len(), 3);
    assert_eq!(it.size_hint(), (3, Some(3)));
    assert_eq!(it.next(), Some(b"one".as_slice()));
    assert_eq!(it.len(), 2);
    assert_eq!(it.next_back(), Some(b"three".as_slice()));
    assert_eq!(it.next(), Some(b"two".as_slice()));
    assert_eq!(it.len(), 0);
    assert_eq!(it.next(), None);
    assert_eq!(it.next_back(), None);
    assert_eq!(it.next(), None);

    let mut back = apple_args_os(snapshot);
    let mut reversed: Vec<&[u8]> = Vec::new();
    while let Some(a) = back.next_back() {
        reversed.push(a);
    }
    let mut fwd = apple_args_os(snapshot);
    let mut forward: Vec<&[u8]> = Vec::new();
    while let Some(a) = fwd.next() {
        forward.push(a);
    }
    forward.reverse();
    assert_eq!(reversed, forward);
}

#[test]
fn text_and_bytes_agree() {
    let snapshot: &[&[u8]] = &[b"alpha", b"caf\xc3\xa9=1", b"z"];
    let mut text = apple_args(snapshot);
    let mut raw = apple_args_os(snapshot);
    assert_eq!(text.size_hint(), (3, Some(3)));
    let mut n: usize = 0;
    while let Some(t) = text.next() {
        let b = raw.next().unwrap();
        assert_eq!(t.as_bytes(), b);
        n += 1;
    }
    assert_eq!(n, 3);
    assert_eq!(raw.next(), None);
    let mut back = apple_args(snapshot);
    assert_eq!(back.next_back(), Some("z"));
    assert_eq!(back.next_back(), Some("caf\u{e9}=1"));
    assert_eq!(back.len(), 1);
}

#[test]
fn clone_copies_only_the_cursor() {
    let snapshot: &[&[u8]] = &[b"a", b"b"];
    let mut it = apple_args(snapshot);
    assert_eq!(it.next(), Some("a"));
    let mut copy = it.clone();
    assert_eq!(copy.next(), Some("b"));
    assert_eq!(it.next(), Some("b"));
    assert_eq!(apple_args(snapshot).count(), 2);
    assert_eq!(apple_args(snapshot).count(), 2);
}

#[test]
fn capture_drops_empty_and_cuts_at_nul() {
    let vector: &[&[u8]] = &[b"a=1", b"", b"b=2\0junk", b"\0x", b"c"];
    let entries = capture(vector);
    let expected: Vec<&[u8]> = vec![b"a=1".as_slice(), b"b=2".as_slice(), b"c".as_slice()];
    assert_eq!(entries, expected);
}

#[test]
fn capture_of_empty_vector_is_empty() {
    let vector: &[&[u8]] = &[];
    assert!(capture(vector).is_empty());
    let only_empty: &[&[u8]] = &[b"", b"\0"];
    assert!(capture(only_empty).is_empty());
}

#[test]
fn position_finds_first_byte() {
    assert_eq!(position(b"ab=c=d", b'='), 2);
    assert_eq!(position(b"abc", b'='), 3);
    assert_eq!(position(b"", b'='), 0);
}

#[test]
fn entry_text_checks_utf8() {
    assert_eq!(appleargs::entry_text(b"caf\xc3\xa9"), Some("caf\u{e9}"));
    assert_eq!(appleargs::entry_text(b""), Some(""));
    assert_eq!(appleargs::entry_text(b"\xff"), None);
    assert_eq!(appleargs::entry_text(b"\xc3"), None);
    assert_eq!(appleargs::entry_text(b"\xed\xa0\x80"), None);
}

#[test]
fn args_peek_does_not_advance() {
    let snapshot: &[&[u8]] = &[b"first", b"\xff", b"last"];
    let mut it = apple_args(snapshot);
    assert_eq!(it.peek(), Some(b"first".as_slice()));
    assert_eq!(it.peek_back(), Some(b"last".as_slice()));
    assert_eq!(it.len(), 3);
    assert_eq!(it.next(), Some("first"));
    assert_eq!(it.peek(), Some(b"\xff".as_slice()));
    assert_eq!(appleargs::entry_text(it.peek().unwrap()), None);
    assert_eq!(it.next_back(), Some("last"));
    assert_eq!(apple_args(&[]).peek(), None);
}
