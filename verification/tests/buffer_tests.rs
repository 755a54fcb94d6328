use mini_sgbd::buffer::{Buffer, BufferError};

#[test]
fn test_write_read_int() {
    let mut buffer2 = Buffer::with_size(32);
    let _ = buffer2.write_int(4, 10);
    assert_eq!(buffer2.read_int(4).unwrap(), 10);
}

#[test]
fn test_write_read_string() {
    let mut buffer2 = Buffer::with_size(32);
    let _ = buffer2.write_string(0, "Salut moi cest Arnaud", "Salut moi cest Arnaud".len());
    assert_eq!(buffer2.read_string(0, "Salut moi cest Arnaud".len()).unwrap(), "Salut moi cest Arnaud");
}

#[test]
fn write_int_is_big_endian_and_bounded() {
    let mut b = Buffer::with_size(8);
    b.write_int(0, 0x01020304).unwrap();
    assert_eq!(&b.as_bytes()[0..4], &[1, 2, 3, 4]);
    b.write_int(4, -1).unwrap();
    assert_eq!(b.read_int(4).unwrap(), -1);
    assert_eq!(b.write_int(5, 7), Err(BufferError::UnexpectedEof));
    assert_eq!(b.read_int(6), Err(BufferError::UnexpectedEof));
    assert_eq!(b.len(), 8);
}

#[test]
fn string_longer_than_buffer_fails() {
    let mut b = Buffer::with_size(4);
    assert_eq!(b.write_string(0, "hello", 5), Err(BufferError::UnexpectedEof));
    assert_eq!(b.read_string(2, 3), Err(BufferError::UnexpectedEof));
}

#[test]
fn buffer_from_bytes_reads_them() {
    let mut b = Buffer::from_bytes(vec![0, 0, 0, 7, 0xff, 0xff, 0xff, 0xfe]);
    assert_eq!(b.len(), 8);
    assert_eq!(b.read_int(0).unwrap(), 7);
    assert_eq!(b.read_int(4).unwrap(), -2);
    assert_eq!(b.as_bytes(), &[0, 0, 0, 7, 0xff, 0xff, 0xff, 0xfe]);
}
