use tomlex::{Read, StrRead};

#[test]
fn str_read_walks_the_bytes() {
    let mut read = StrRead::new("ab");
    assert_eq!(read.current(), 0);
    assert!(!read.eof());
    assert_eq!(read.peek(), b'a');
    assert_eq!(read.peek2(), b'b');
    assert_eq!(read.next(), b'a');
    assert_eq!(read.current(), 1);
    assert_eq!(read.peek(), b'b');
    assert_eq!(read.peek2(), 0);
    assert_eq!(read.next(), b'b');
    assert!(read.eof());
    assert_eq!(read.next(), 0);
    assert_eq!(read.current(), 2);
}

#[test]
fn str_read_of_empty_text() {
    let mut read = StrRead::new("");
    assert!(read.eof());
    assert_eq!(read.peek(), 0);
    read.refill();
    assert_eq!(read.current(), 0);
    assert_eq!(read.next(), 0);
}
