use klang::tok::stream::ByteStream;

#[test]
fn bytestream_test() {
    let mut test = ByteStream::new(b"hello");
    assert_eq!(test.prev(), None);
    assert_eq!(test.curr(), None);
    assert_eq!(test.peek(), Some(b'h'));
    assert_eq!(test.peek_next(), Some(b'e'));

    assert_eq!(test.next(), Some(b'h'));
    assert_eq!(test.prev(), None);
    assert_eq!(test.curr(), Some(b'h'));
    assert_eq!(test.peek(), Some(b'e'));
    assert_eq!(test.peek_next(), Some(b'l'));

    assert_eq!(test.next(), Some(b'e'));
    assert_eq!(test.prev(), Some(b'h'));
    assert_eq!(test.curr(), Some(b'e'));
    assert_eq!(test.peek(), Some(b'l'));
    assert_eq!(test.peek_next(), Some(b'l'));

    assert_eq!(test.next(), Some(b'l'));
    assert_eq!(test.prev(), Some(b'e'));
    assert_eq!(test.curr(), Some(b'l'));
    assert_eq!(test.peek(), Some(b'l'));
    assert_eq!(test.peek_next(), Some(b'o'));

    assert_eq!(test.next(), Some(b'l'));
    assert_eq!(test.prev(), Some(b'l'));
    assert_eq!(test.curr(), Some(b'l'));
    assert_eq!(test.peek(), Some(b'o'));
    assert_eq!(test.peek_next(), None);

    assert_eq!(test.next(), Some(b'o'));
    assert_eq!(test.prev(), Some(b'l'));
    assert_eq!(test.curr(), Some(b'o'));
    assert_eq!(test.peek(), None);
    assert_eq!(test.peek_next(), None);

    assert_eq!(test.next(), None);
    assert_eq!(test.prev(), Some(b'o'));
    assert_eq!(test.curr(), None);
    assert_eq!(test.peek(), None);
    assert_eq!(test.peek_next(), None);

    assert_eq!(test.next(), None);
    assert_eq!(test.prev(), Some(b'o'));
    assert_eq!(test.curr(), None);
    assert_eq!(test.peek(), None);
    assert_eq!(test.peek_next(), None);
}

#[test]
fn bytestream_test_next_if() {
    let mut test = ByteStream::new(b"hello");
    assert_eq!(test.next_if(|x| x == b'h'), Some(b'h'));
    assert_eq!(test.next_if(|x| x == b'o'), None);
    assert_eq!(test.next(), Some(b'e'));
    assert_eq!(test.next_if(|x| x == b'l'), Some(b'l'));
    assert_eq!(test.next_if(|x| x == b'l'), Some(b'l'));
    assert_eq!(test.next_if(|x| x == b'o'), Some(b'o'));
    assert_eq!(test.next_if(|x| x == b'o'), None);
    assert_eq!(test.next(), None);
}

#[test]
fn bytestream_test_next_if_eq() {
    let mut test = ByteStream::new(b"hello");
    assert_eq!(test.next_if_eq(b'h'), Some(b'h'));
    assert_eq!(test.next_if_eq(b'o'), None);
    assert_eq!(test.next(), Some(b'e'));
    assert_eq!(test.next_if_eq(b'l'), Some(b'l'));
    assert_eq!(test.next_if_eq(b'l'), Some(b'l'));
    assert_eq!(test.next_if_eq(b'o'), Some(b'o'));
    assert_eq!(test.next_if_eq(b'o'), None);
    assert_eq!(test.next(), None);
}
