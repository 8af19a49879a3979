use appleargs::env::{apple_getenv, apple_var, apple_var_os, apple_vars, apple_vars_os, split_kv, VarError};

#[test]
fn test_apple_getenv() {
    assert_eq!(
        apple_getenv(b"foo", &[b"foob=1", b"fo=2", b"bfoo=3", b"foo=4"]),
        Some(b"4".as_slice()),
    );
    assert_eq!(
        apple_getenv(b"foo", &[b"foob=1", b"fo=2", b"bfoo=3", b"foo="]),
        Some(b"".as_slice()),
    );
    assert_eq!(
        apple_getenv(b"foo", &[b"foob=1", b"fo=2", b"bfoo=3", b"foo=1=2"]),
        Some(b"1=2".as_slice()),
    );
    assert_eq!(apple_getenv(b"foo", &[b"bfoo=1", b"fo=2"]), None);
    assert_eq!(
        apple_getenv(b"foo\0", &[b"foob=1", b"fo=2", b"bfoo=3", b"foo="]),
        None,
    );
    assert_eq!(
        apple_getenv(b"=", &[b"=abc", b"==def"]),
        Some(b"def".as_slice()),
    );
    assert_eq!(
        apple_getenv(b"abc", &[b"abc=\xff\x00\xff"]),
        Some(b"\xff\x00\xff".as_slice()),
    );
}

#[test]
fn getenv_first_match_wins() {
    assert_eq!(apple_getenv(b"a", &[b"a=1", b"a=2"]), Some(b"1".as_slice()));
    assert_eq!(apple_getenv(b"", &[b"x=1", b"=abc"]), Some(b"abc".as_slice()));
    assert_eq!(apple_getenv(b"a", &[]), None);
    assert_eq!(apple_getenv(b"a", &[b"a"]), None);
}

#[test]
fn split_kv_at_first_equals() {
    assert_eq!(split_kv(b"k=v"), Some((b"k".as_slice(), b"v".as_slice())));
    assert_eq!(split_kv(b"k=v=w"), Some((b"k".as_slice(), b"v=w".as_slice())));
    assert_eq!(split_kv(b"=v"), Some((b"".as_slice(), b"v".as_slice())));
    assert_eq!(split_kv(b"k="), Some((b"k".as_slice(), b"".as_slice())));
    assert_eq!(split_kv(b"plain"), None);
    assert_eq!(split_kv(b""), None);
}

#[test]
fn vars_os_split_law() {
    let snapshot: &[&[u8]] = &[b"key=value", b"plain", b"=only_value", b"only_key=", b"a=b=c"];
    let mut vars = apple_vars_os(snapshot);
    assert_eq!(vars.size_hint(), (0, Some(5)));
    assert_eq!(vars.next(), Some((b"key".as_slice(), b"value".as_slice())));
    assert_eq!(vars.next(), Some((b"".as_slice(), b"only_value".as_slice())));
    assert_eq!(vars.next(), Some((b"only_key".as_slice(), b"".as_slice())));
    assert_eq!(vars.next(), Some((b"a".as_slice(), b"b=c".as_slice())));
    assert_eq!(vars.next(), None);
    assert_eq!(vars.next(), None);
    assert_eq!(vars.next_back(), None);
}

#[test]
fn vars_os_reverse_and_restart() {
    let snapshot: &[&[u8]] = &[b"a=1", b"skip", b"b=2", b"c=3", b"tail"];
    let mut back = apple_vars_os(snapshot);
    assert_eq!(back.next_back(), Some((b"c".as_slice(), b"3".as_slice())));
    let copy = back.clone();
    assert_eq!(back.next_back(), Some((b"b".as_slice(), b"2".as_slice())));
    assert_eq!(back.next(), Some((b"a".as_slice(), b"1".as_slice())));
    assert_eq!(back.next_back(), None);
    assert_eq!(back.next(), None);
    let mut copy = copy;
    assert_eq!(copy.next(), Some((b"a".as_slice(), b"1".as_slice())));
    let mut fresh = apple_vars_os(snapshot);
    assert_eq!(fresh.next(), Some((b"a".as_slice(), b"1".as_slice())));
}

#[test]
fn vars_utf8_text() {
    let snapshot: &[&[u8]] = &[b"name=caf\xc3\xa9", b"noise", b"x="];
    let mut vars = apple_vars(snapshot);
    assert_eq!(vars.size_hint(), (0, Some(3)));
    assert_eq!(vars.next(), Some(("name", "caf\u{e9}")));
    assert_eq!(vars.next(), Some(("x", "")));
    assert_eq!(vars.next(), None);
    let mut back = apple_vars(snapshot);
    assert_eq!(back.next_back(), Some(("x", "")));
    assert_eq!(back.next_back(), Some(("name", "caf\u{e9}")));
    assert_eq!(back.next_back(), None);
}

#[test]
fn var_distinguishes_absent_from_not_unicode() {
    let snapshot: &[&[u8]] = &[b"good=abc", b"bad=\xff\xfe", b"plain"];
    assert_eq!(apple_var(snapshot, b"good"), Ok("abc"));
    assert_eq!(apple_var(snapshot, b"bad"), Err(VarError::NotUnicode(b"\xff\xfe".as_slice())));
    assert_eq!(apple_var(snapshot, b"missing"), Err(VarError::NotPresent));
    assert_eq!(apple_var(snapshot, b"plain"), Err(VarError::NotPresent));
    assert_eq!(apple_var(snapshot, b"go\0od"), Err(VarError::NotPresent));
}

#[test]
fn var_os_returns_raw_value() {
    let snapshot: &[&[u8]] = &[b"bad=\xff\xfe", b"k=v"];
    assert_eq!(apple_var_os(snapshot, b"bad"), Some(b"\xff\xfe".as_slice()));
    assert_eq!(apple_var_os(snapshot, b"k"), Some(b"v".as_slice()));
    assert_eq!(apple_var_os(snapshot, b"v"), None);
}

#[test]
fn empty_snapshot_answers_nothing() {
    let snapshot: &[&[u8]] = &[];
    assert_eq!(apple_vars_os(snapshot).next(), None);
    assert_eq!(apple_vars(snapshot).next_back(), None);
    assert_eq!(apple_vars_os(snapshot).size_hint(), (0, Some(0)));
    assert_eq!(apple_var_os(snapshot, b"a"), None);
    assert_eq!(apple_var(snapshot, b"a"), Err(VarError::NotPresent));
    assert_eq!(appleargs::apple_args(snapshot).count(), 0);
    assert_eq!(appleargs::apple_args_os(snapshot).len(), 0);
}

#[test]
fn vars_next_consumes_up_to_the_yielded_entry() {
    let snapshot: &[&[u8]] = &[b"skip", b"a=1", b"x", b"y", b"b=2", b"tail"];
    let mut vars = apple_vars_os(snapshot);
    assert_eq!(vars.next(), Some((b"a".as_slice(), b"1".as_slice())));
    assert_eq!(vars.size_hint(), (0, Some(4)));
    assert_eq!(vars.next_back(), Some((b"b".as_slice(), b"2".as_slice())));
    assert_eq!(vars.size_hint(), (0, Some(2)));
    assert_eq!(vars.next(), None);
    assert_eq!(vars.size_hint(), (0, Some(0)));
    let mut back = apple_vars_os(snapshot);
    assert_eq!(back.next_back(), Some((b"b".as_slice(), b"2".as_slice())));
    assert_eq!(back.size_hint(), (0, Some(4)));
    let mut text = apple_vars(snapshot);
    assert_eq!(text.next_back(), Some(("b", "2")));
    assert_eq!(text.next_back(), Some(("a", "1")));
    assert_eq!(text.next_back(), None);
    assert_eq!(text.size_hint(), (0, Some(0)));
}

#[test]
fn vars_peek_does_not_advance() {
    let snapshot: &[&[u8]] = &[b"a=1", b"none", b"b=\xff"];
    let mut vars = apple_vars(snapshot);
    assert_eq!(vars.peek(), Some((b"a".as_slice(), b"1".as_slice())));
    assert_eq!(vars.peek_back(), Some((b"b".as_slice(), b"\xff".as_slice())));
    assert_eq!(vars.next(), Some(("a", "1")));
    assert_eq!(vars.peek(), Some((b"b".as_slice(), b"\xff".as_slice())));
    assert_eq!(apple_vars(&[b"none"]).peek(), None);
}
