use rustic::encoders::{rice_compute_k, rice_decode_value, rice_encode_value};
use rustic::stream::{StreamError, StreamReader, StreamWriter};

#[test]
fn test_encode_decode_value() {
    for k in 0..10 {
        for &x in [-38368, -10, -1, 0, 1, 2, 3, 4, 5, 6, 38368, 38369].iter() {
            let mut dest = StreamWriter::new(Vec::new());
            rice_encode_value(k, x, &mut dest);
            dest.flush();
            let buf = dest.finish();
            let mut bitstream = StreamReader::new(&buf);
            let decoded = rice_decode_value(k, &mut bitstream).unwrap();
            assert_eq!(
                x, decoded,
                "k = {}, x = {}, roundtripped = {}",
                k, x, decoded
            );
        }
    }
}

#[test]
fn codeword_layout_is_unary_then_remainder() {
    // x = 3 folds to 6; with k = 1: quotient 3, remainder 0 -> 0001 0, padded.
    let mut dest = StreamWriter::new(Vec::new());
    rice_encode_value(1, 3, &mut dest);
    assert_eq!(dest.finish(), vec![0b0001_0000]);
    // x = -2 folds to 3; with k = 0: quotient 3 -> 0001, padded.
    let mut dest = StreamWriter::new(Vec::new());
    rice_encode_value(0, -2, &mut dest);
    assert_eq!(dest.finish(), vec![0b0001_0000]);
    // x = 0 with k = 2: quotient 0, remainder 00 -> 100.
    let mut dest = StreamWriter::new(Vec::new());
    rice_encode_value(2, 0, &mut dest);
    assert_eq!(dest.finish(), vec![0b1000_0000]);
}

#[test]
fn compute_k_values() {
    assert_eq!(rice_compute_k(0, 0, 0, 0), 0);
    assert_eq!(rice_compute_k(500, 500, 500, 500), 0);
    assert_eq!(rice_compute_k(0, 0, 0, 3), 0);
    assert_eq!(rice_compute_k(0, 0, 0, 4), 1);
    assert_eq!(rice_compute_k(0, 0, 0, 10), 2);
    assert_eq!(rice_compute_k(0, 0, 0, 12), 2);
    assert_eq!(rice_compute_k(0, 0, 0, 13), 3);
    assert_eq!(rice_compute_k(0, 65535, 0, 65535), 15);
    assert_eq!(rice_compute_k(65535, 0, 65535, 65535), 16);
}

#[test]
fn compute_k_is_monotone_in_activity() {
    let mut last = 0;
    for d in 0..2000u16 {
        let k = rice_compute_k(0, 0, 0, d);
        assert!(k >= last);
        last = k;
    }
}

#[test]
fn decode_value_on_truncated_stream() {
    let empty: Vec<u8> = Vec::new();
    let mut r = StreamReader::new(&empty);
    assert_eq!(rice_decode_value(0, &mut r), Err(StreamError::UnexpectedEof));
    // All zero bits: the unary prefix never ends.
    let zeros = vec![0u8, 0u8];
    let mut r = StreamReader::new(&zeros);
    assert_eq!(rice_decode_value(3, &mut r), Err(StreamError::UnexpectedEof));
    // The one bit is there but the remainder is cut short.
    let short = vec![0b0000_0001u8];
    let mut r = StreamReader::new(&short);
    assert_eq!(rice_decode_value(2, &mut r), Err(StreamError::UnexpectedEof));
}
