use fasteetf::cursor::Cursor;
use fasteetf::{EtfError, Needed};

#[test]
fn cursor_reads_big_endian_integers() {
    let data = [1u8, 2, 3, 4, 5, 6, 7, 8, 9];
    let mut c = Cursor::new(&data);
    assert_eq!(c.read_u8(), Ok(1));
    assert_eq!(c.read_u16(), Ok(0x0203));
    assert_eq!(c.read_u32(), Ok(0x0405_0607));
    assert_eq!(c.consumed(), 7);
    assert_eq!(c.remaining(), 2);
    assert_eq!(c.read_u32(), Err(EtfError::UnexpectedEof));
    // A failed read leaves the position where it was.
    assert_eq!(c.consumed(), 7);
    assert_eq!(c.peek(), Some(8));
}

#[test]
fn cursor_reads_eight_byte_floats_as_bits() {
    let bits = (-2.75f64).to_bits();
    let data = bits.to_be_bytes();
    let mut c = Cursor::new(&data);
    assert_eq!(c.read_u64(), Ok(bits));
    assert_eq!(c.read_u8(), Err(EtfError::UnexpectedEof));
}

#[test]
fn cursor_take_gives_the_next_bytes() {
    let data = [10u8, 20, 30, 40];
    let mut c = Cursor::new(&data);
    assert_eq!(c.take(3), Ok(&data[..3]));
    assert_eq!(c.take(2), Err(EtfError::UnexpectedEof));
    assert_eq!(c.take(1), Ok(&data[3..]));
    assert_eq!(c.peek(), None);
}

#[test]
fn streaming_cursor_reports_what_a_read_needs() {
    let data = [1u8, 2];
    let mut c = Cursor::new_streaming(&data);
    // Two bytes are there: a read of five is three short, of four two.
    assert_eq!(c.take(5), Err(EtfError::Incomplete(Needed::Size(3))));
    assert_eq!(c.read_u32(), Err(EtfError::Incomplete(Needed::Size(2))));
    assert_eq!(c.read_u16(), Ok(0x0102));
    assert_eq!(c.read_u8(), Err(EtfError::Incomplete(Needed::Size(1))));
    assert_eq!(c.eof_or_incomplete(3), EtfError::Incomplete(Needed::Size(3)));
    let c = Cursor::new(&data);
    assert_eq!(c.eof_or_incomplete(3), EtfError::UnexpectedEof);
}

#[test]
fn cursor_consumed_and_slice_between() {
    let data = [5u8, 6, 7, 8];
    let mut c = Cursor::new(&data);
    let _ = c.read_u8();
    assert_eq!(c.consumed(), 1);
    assert_eq!(c.slice_between(1, 3), &[6, 7]);
    assert_eq!(c.slice_between(2, 2), &[] as &[u8]);
}
