use rustic::stream::{StreamError, StreamReader, StreamWriter};

#[test]
fn writer_packs_msb_first_and_pads() {
    let mut w = StreamWriter::new(Vec::new());
    w.write(0b101, 3);
    w.write(0b11, 2);
    w.flush();
    assert_eq!(w.finish(), vec![0b1011_1000]);
}

#[test]
fn writer_keeps_only_low_bits() {
    let mut w = StreamWriter::new(Vec::new());
    w.write(0xff, 4);
    assert_eq!(w.finish(), vec![0b1111_0000]);
}

#[test]
fn writer_spans_bytes_and_appends() {
    let mut w = StreamWriter::new(vec![0xaa]);
    w.write(0x1234, 16);
    w.write(0x5, 4);
    assert_eq!(w.finish(), vec![0xaa, 0x12, 0x34, 0x50]);
}

#[test]
fn writer_long_write_is_zero_extended() {
    let mut w = StreamWriter::new(Vec::new());
    w.write(1, 129);
    let bytes = w.finish();
    assert_eq!(bytes.len(), 17);
    for b in &bytes[..16] {
        assert_eq!(*b, 0);
    }
    assert_eq!(bytes[16], 0b1000_0000);
    let mut w = StreamWriter::new(Vec::new());
    w.write(u64::MAX, 72);
    assert_eq!(w.finish(), vec![0, 255, 255, 255, 255, 255, 255, 255, 255]);
}

#[test]
fn flush_on_byte_boundary_adds_nothing() {
    let mut w = StreamWriter::new(Vec::new());
    w.write(0xab, 8);
    w.flush();
    w.flush();
    assert_eq!(w.finish(), vec![0xab]);
}

#[test]
fn reader_reads_msb_first() {
    let src = vec![0b1011_0001u8, 0xff];
    let mut r = StreamReader::new(&src);
    assert_eq!(r.read(1), Ok(1));
    assert_eq!(r.read(3), Ok(0b011));
    assert_eq!(r.shift(8), Ok(0b0001_1111));
    assert_eq!(r.read(8), Ok(0b0001_1111));
    assert_eq!(r.read(4), Ok(0xf));
    assert_eq!(r.read(1), Err(StreamError::UnexpectedEof));
}

#[test]
fn reader_reads_full_words() {
    let src = vec![1u8, 2, 3, 4, 5, 6, 7, 8, 9];
    let mut r = StreamReader::new(&src);
    assert_eq!(r.read(64), Ok(0x0102030405060708));
    assert_eq!(r.read(0), Ok(0));
    assert_eq!(r.read(16), Err(StreamError::UnexpectedEof));
}

#[test]
fn reader_align_skips_partial_byte() {
    let src = vec![0xf0u8, 0x0f];
    let mut r = StreamReader::new(&src);
    assert_eq!(r.read(2), Ok(0b11));
    r.align();
    assert_eq!(r.read(8), Ok(0x0f));
    r.align();
    assert_eq!(r.read(1), Err(StreamError::UnexpectedEof));
}
