use stackvm::tokenize;

#[test]
fn tokens_with_positions() {
    let mut t = tokenize("a b\nc", None);
    let a = t.next().unwrap();
    assert_eq!(a.content, "a");
    assert_eq!(a.location.line, 1);
    assert_eq!(a.location.column, 1);
    let b = t.next().unwrap();
    assert_eq!(b.content, "b");
    assert_eq!(b.location.line, 1);
    assert_eq!(b.location.column, 3);
    let c = t.next().unwrap();
    assert_eq!(c.content, "c");
    assert_eq!(c.location.line, 2);
    assert_eq!(c.location.column, 1);
    assert!(t.next().is_none());
}

#[test]
fn empty_source_has_no_tokens() {
    let mut t = tokenize("", None);
    assert!(t.next().is_none());
}

#[test]
fn whitespace_only_has_no_tokens() {
    let mut t = tokenize(" \t\n  \r\n", None);
    assert!(t.next().is_none());
}

#[test]
fn carriage_return_counts_as_plain_whitespace() {
    let mut t = tokenize("a\r\nb", None);
    let a = t.next().unwrap();
    assert_eq!(a.content, "a");
    let b = t.next().unwrap();
    assert_eq!(b.content, "b");
    assert_eq!(b.location.line, 2);
    assert_eq!(b.location.column, 1);
}

#[test]
fn columns_count_from_one() {
    let mut t = tokenize("  xy z", None);
    let xy = t.next().unwrap();
    assert_eq!(xy.content, "xy");
    assert_eq!(xy.location.column, 3);
    let z = t.next().unwrap();
    assert_eq!(z.content, "z");
    assert_eq!(z.location.column, 6);
}

#[test]
fn path_is_attached_to_every_token() {
    let mut t = tokenize("x y", Some("prog.vm"));
    let x = t.next().unwrap();
    assert_eq!(x.location.path.as_deref(), Some("prog.vm"));
    let y = t.next().unwrap();
    assert_eq!(y.location.path.as_deref(), Some("prog.vm"));
}

#[test]
fn multiline_positions() {
    let mut t = tokenize("one\n  two\n\nthree", None);
    let one = t.next().unwrap();
    assert_eq!((one.location.line, one.location.column), (1, 1));
    let two = t.next().unwrap();
    assert_eq!(two.content, "two");
    assert_eq!((two.location.line, two.location.column), (2, 3));
    let three = t.next().unwrap();
    assert_eq!(three.content, "three");
    assert_eq!((three.location.line, three.location.column), (4, 1));
}

#[test]
fn location_message_with_and_without_path() {
    let mut t = tokenize("x", Some("f.vm"));
    let x = t.next().unwrap();
    assert_eq!(x.location.message(), "f.vm:1:1");
    let mut u = tokenize("\n  y", None);
    let y = u.next().unwrap();
    assert_eq!(y.location.message(), "2:3");
}
