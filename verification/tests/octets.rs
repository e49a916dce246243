use rtcp_sdes::octets::{BufferTooShortError, Octets};

#[test]
fn a_new_cursor_stands_at_the_start() {
    let cursor = Octets::with_slice(&[1, 2, 3]);
    assert_eq!(cursor.off(), 0);
    assert_eq!(cursor.cap(), 3);
    assert_eq!(cursor.buf(), &[1, 2, 3][..]);

    let cursor = Octets::with_capacity(5);
    assert_eq!(cursor.off(), 0);
    assert_eq!(cursor.cap(), 5);
    assert_eq!(cursor.buf(), &[0, 0, 0, 0, 0][..]);

    let cursor = Octets::with_capacity(0);
    assert_eq!(cursor.cap(), 0);
    assert_eq!(cursor.buf().len(), 0);
}

#[test]
fn reads_move_the_cursor() {
    let mut cursor = Octets::with_slice(&[0x12, 0x34, 0x56, 0x78, 0x9a, 1, 2, 3, 4, 5]);
    assert_eq!(cursor.get_u32(), Ok(0x12345678));
    assert_eq!(cursor.off(), 4);
    assert_eq!(cursor.get_u8(), Ok(0x9a));
    assert_eq!(cursor.off(), 5);
    assert_eq!(cursor.get_bytes(2), Ok(vec![1, 2]));
    assert_eq!(cursor.off(), 7);
    assert_eq!(cursor.skip(2), Ok(()));
    assert_eq!(cursor.off(), 9);
    assert_eq!(cursor.get_bytes(0), Ok(vec![]));
    assert_eq!(cursor.get_u8(), Ok(5));
    assert_eq!(cursor.cap(), 0);
    assert_eq!(cursor.skip(0), Ok(()));
    assert_eq!(cursor.get_bytes(0), Ok(vec![]));
    assert_eq!(cursor.off(), 10);
}

#[test]
fn reads_that_do_not_fit_fail_and_leave_the_cursor() {
    let mut cursor = Octets::with_slice(&[1, 2, 3]);
    assert_eq!(cursor.get_u32(), Err(BufferTooShortError));
    assert_eq!(cursor.off(), 0);
    assert_eq!(cursor.get_bytes(4), Err(BufferTooShortError));
    assert_eq!(cursor.off(), 0);
    assert_eq!(cursor.skip(4), Err(BufferTooShortError));
    assert_eq!(cursor.off(), 0);
    assert_eq!(cursor.get_bytes(usize::MAX), Err(BufferTooShortError));
    assert_eq!(cursor.skip(usize::MAX), Err(BufferTooShortError));
    assert_eq!(cursor.skip(3), Ok(()));
    assert_eq!(cursor.get_u8(), Err(BufferTooShortError));
    assert_eq!(cursor.off(), 3);
}

#[test]
fn big_endian_numbers() {
    let bytes = [0, 0, 0, 0, 0xff, 0xff, 0xff, 0xff, 0, 0, 1, 0, 0x80, 0, 0, 1];
    let mut cursor = Octets::with_slice(&bytes);
    assert_eq!(cursor.get_u32(), Ok(0));
    assert_eq!(cursor.get_u32(), Ok(u32::MAX));
    assert_eq!(cursor.get_u32(), Ok(256));
    assert_eq!(cursor.get_u32(), Ok(0x8000_0001));

    let mut cursor = Octets::with_capacity(16);
    for v in [0, u32::MAX, 256, 0x8000_0001] {
        assert_eq!(cursor.put_u32(v), Ok(()));
    }
    assert_eq!(cursor.buf(), &bytes[..]);
}

#[test]
fn numbers_read_back_as_written() {
    let values =
        [0u32, 1, 0xff, 0x100, 0xffff, 0x1_0000, 0xff_ffff, 0x100_0000, 0x1234_5678, u32::MAX];
    for v in values {
        let mut cursor = Octets::with_capacity(4);
        assert_eq!(cursor.put_u32(v), Ok(()));
        assert_eq!(cursor.buf(), &v.to_be_bytes()[..]);
        let mut cursor = Octets::with_slice(cursor.buf());
        assert_eq!(cursor.get_u32(), Ok(v));
    }
}

#[test]
fn writes_replace_bytes_at_the_offset() {
    let mut cursor = Octets::with_slice(&[9; 10]);
    assert_eq!(cursor.put_u8(1), Ok(()));
    assert_eq!(cursor.put_u32(0x02030405), Ok(()));
    assert_eq!(cursor.put_bytes(&[6, 7]), Ok(()));
    assert_eq!(cursor.put_bytes(&[]), Ok(()));
    assert_eq!(cursor.off(), 7);
    assert_eq!(cursor.cap(), 3);
    assert_eq!(cursor.buf(), &[1, 2, 3, 4, 5, 6, 7, 9, 9, 9][..]);
}

#[test]
fn writes_that_do_not_fit_fail_and_write_nothing() {
    let mut cursor = Octets::with_slice(&[9; 3]);
    assert_eq!(cursor.put_u32(1), Err(BufferTooShortError));
    assert_eq!(cursor.put_bytes(&[1, 2, 3, 4]), Err(BufferTooShortError));
    assert_eq!(cursor.off(), 0);
    assert_eq!(cursor.buf(), &[9, 9, 9][..]);
    assert_eq!(cursor.put_bytes(&[1, 2, 3]), Ok(()));
    assert_eq!(cursor.put_u8(4), Err(BufferTooShortError));
    assert_eq!(cursor.put_bytes(&[]), Ok(()));
    assert_eq!(cursor.off(), 3);
    assert_eq!(cursor.buf(), &[1, 2, 3][..]);
}

#[test]
fn a_cursor_copies_the_slice_it_is_given() {
    let mut source = vec![1, 2, 3];
    let mut cursor = Octets::with_slice(&source);
    source[0] = 7;
    assert_eq!(cursor.put_u8(5), Ok(()));
    assert_eq!(cursor.buf(), &[5, 2, 3][..]);
    assert_eq!(source, vec![7, 2, 3]);
}
