use rustic::codec::{Codec, FixedPredictionCodec};
use rustic::frame::{Plane, RGB48Frame};
use rustic::stream::{StreamError, StreamReader};

fn samples(n: usize, seed: u32) -> Vec<u16> {
    let mut v = Vec::new();
    let mut s = seed;
    for _ in 0..n {
        s = s.wrapping_mul(1103515245).wrapping_add(12345);
        v.push((s >> 8) as u16);
    }
    v
}

fn round_trip(data: &[u16], width: usize, height: usize) {
    let codec = FixedPredictionCodec;
    let plane = Plane { data, width, height, sample_stride: 1, row_stride: width };
    let encoded = codec.encode(&plane, Vec::new());
    let mut reader = StreamReader::new(&encoded);
    let decoded = codec.decode(&mut reader, width, height).unwrap();
    assert_eq!(decoded, data.to_vec());
}

#[test]
fn prediction_picks_min_max_or_gradient() {
    let codec = FixedPredictionCodec;
    assert_eq!(codec.fixed_prediction(10, 20, 5), 20);
    assert_eq!(codec.fixed_prediction(10, 20, 25), 10);
    assert_eq!(codec.fixed_prediction(10, 20, 15), 15);
    assert_eq!(codec.fixed_prediction(20, 10, 20), 10);
    assert_eq!(codec.fixed_prediction(20, 10, 10), 20);
    assert_eq!(codec.fixed_prediction(0, 65535, 1), 65534);
}

#[test]
fn plane_round_trip_shapes() {
    round_trip(&[7], 1, 1);
    round_trip(&[0, 65535, 0, 65535, 1], 5, 1);
    round_trip(&[65535, 0, 65535, 0, 1], 1, 5);
    round_trip(&samples(12 * 7, 1), 12, 7);
    round_trip(&samples(3 * 40, 2), 40, 3);
    round_trip(&vec![65535u16; 64], 8, 8);
    round_trip(&vec![0u16; 64], 8, 8);
}

#[test]
fn flat_plane_costs_one_bit_per_sample() {
    let codec = FixedPredictionCodec;
    let data = vec![0u16; 20];
    let plane = Plane { data: &data, width: 5, height: 4, sample_stride: 1, row_stride: 5 };
    // Every residual is 0 with k = 0: one bit each, 20 bits -> 3 bytes.
    let encoded = codec.encode(&plane, Vec::new());
    assert_eq!(encoded, vec![0xff, 0xff, 0xf0]);
}

#[test]
fn single_sample_plane_exact_bytes() {
    let codec = FixedPredictionCodec;
    let data = vec![3u16];
    let plane = Plane { data: &data, width: 1, height: 1, sample_stride: 1, row_stride: 1 };
    // residual 3 folds to 6, k = 0: six zero bits then a one bit.
    assert_eq!(codec.encode(&plane, vec![9]), vec![9, 0b0000_0010]);
}

#[test]
fn strided_plane_reads_its_channel() {
    let codec = FixedPredictionCodec;
    let data: Vec<u16> = vec![1, 100, 2, 200, 3, 300, 4, 400];
    let plane = Plane { data: &data[1..], width: 2, height: 2, sample_stride: 2, row_stride: 4 };
    assert_eq!(plane.sample(1, 1), 400);
    let encoded = codec.encode(&plane, Vec::new());
    let mut reader = StreamReader::new(&encoded);
    assert_eq!(codec.decode(&mut reader, 2, 2).unwrap(), vec![100, 200, 300, 400]);
}

#[test]
fn empty_plane_encodes_to_nothing() {
    let codec = FixedPredictionCodec;
    let data: Vec<u16> = Vec::new();
    let plane = Plane { data: &data, width: 0, height: 3, sample_stride: 1, row_stride: 0 };
    assert_eq!(codec.encode(&plane, Vec::new()), Vec::<u8>::new());
}

#[test]
fn truncated_plane_fails_with_eof() {
    let codec = FixedPredictionCodec;
    let data = samples(16, 3);
    let plane = Plane { data: &data, width: 4, height: 4, sample_stride: 1, row_stride: 4 };
    let encoded = codec.encode(&plane, Vec::new());
    let cut = &encoded[..encoded.len() - 2];
    let mut reader = StreamReader::new(cut);
    assert_eq!(codec.decode(&mut reader, 4, 4), Err(StreamError::UnexpectedEof));
}

#[test]
fn frame_round_trip_and_stream_length() {
    let codec = FixedPredictionCodec;
    let (w, h) = (9usize, 5usize);
    let frame = RGB48Frame { data: samples(3 * w * h, 4), width: w, height: h };
    let encoded = frame.encode(Vec::new(), &codec);
    let mut total = 0;
    for plane in frame.planes() {
        total += codec.encode(&plane, Vec::new()).len();
    }
    assert_eq!(encoded.len(), total);
    let decoded = frame.decode(&encoded, w, h, &codec).unwrap();
    assert_eq!(frame == decoded, true);
}

#[test]
fn frame_planes_views() {
    let frame = RGB48Frame { data: vec![1, 2, 3, 4, 5, 6], width: 2, height: 1 };
    let planes = frame.planes();
    assert_eq!(planes.len(), 3);
    assert_eq!(planes[0].sample(1, 0), 4);
    assert_eq!(planes[1].sample(0, 0), 2);
    assert_eq!(planes[2].sample(1, 0), 6);
}

#[test]
fn frame_decode_of_short_stream_fails() {
    let codec = FixedPredictionCodec;
    let frame = RGB48Frame { data: vec![0; 12], width: 2, height: 2 };
    let encoded = frame.encode(Vec::new(), &codec);
    // Each flat plane takes one byte; two bytes hold only two planes.
    assert_eq!(encoded.len(), 3);
    assert_eq!(frame.decode(&encoded[..2], 2, 2, &codec), Err(StreamError::UnexpectedEof));
}

#[test]
fn context_boundaries_exact_bytes() {
    // 2 x 2 plane: row 0 = [0, 9], row 1 = [0, 9].
    // (0,0): zero context, residual 0, k 0           -> 1
    // (1,0): first row, residual 9 (fold 18), k 0    -> 18 zeros, 1
    // (0,1): a = c = 0, b = 0, d = 9, k 2, residual 0 -> 1 00
    // (1,1): last column so d = 0; a 0, b 9, c 0, k 3, prediction 9 -> 1 000
    let codec = FixedPredictionCodec;
    let data: Vec<u16> = vec![0, 9, 0, 9];
    let plane = Plane { data: &data, width: 2, height: 2, sample_stride: 1, row_stride: 2 };
    let encoded = codec.encode(&plane, Vec::new());
    assert_eq!(encoded, vec![0x80, 0x00, 0x19, 0x00]);
    let mut reader = StreamReader::new(&encoded);
    assert_eq!(codec.decode(&mut reader, 2, 2).unwrap(), data);
}
