use dpc_pariter::IteratorExt;
use ldpc_frames::codec::extract_file_size;
use ldpc_frames::fec::{decode_codeword, DecodeError};
use ldpc_frames::pipeline::{decode_stream, encode_file};

fn sample(n: usize) -> Vec<u8> {
    (0..n).map(|i| (i.wrapping_mul(31).wrapping_add(7)) as u8).collect()
}

fn assert_round_trip(n: usize) {
    let data = sample(n);
    let cws = encode_file(&data);
    let back = decode_stream(&cws).expect("clean stream must decode");
    assert_eq!(back, data);
}

#[test]
fn round_trip_empty() {
    assert_round_trip(0);
}

#[test]
fn round_trip_single_byte() {
    assert_round_trip(1);
}

#[test]
fn round_trip_one_below_limit() {
    assert_round_trip(511);
}

#[test]
fn round_trip_exact_limit() {
    assert_round_trip(512);
}

#[test]
fn round_trip_one_above_limit() {
    assert_round_trip(513);
}

#[test]
fn round_trip_whole_frames() {
    assert_round_trip(2048);
}

#[test]
fn round_trip_with_remainder() {
    assert_round_trip(2048 + 37);
}

#[test]
fn frame_count_matches_ceiling_rule() {
    assert_eq!(encode_file(&sample(0)).len(), 1);
    assert_eq!(encode_file(&sample(1)).len(), 2);
    assert_eq!(encode_file(&sample(512)).len(), 2);
    assert_eq!(encode_file(&sample(513)).len(), 3);
    assert_eq!(encode_file(&sample(1024)).len(), 3);
}

#[test]
fn every_codeword_has_codeword_length() {
    for cw in encode_file(&sample(1500)) {
        assert_eq!(cw.len(), 1024);
    }
}

#[test]
fn first_codeword_carries_file_size() {
    let cws = encode_file(&sample(1000));
    let frame = decode_codeword(&cws[0]).expect("clean header must decode");
    assert_eq!(extract_file_size(&frame), 1000);
}

#[test]
fn encode_twice_is_identical() {
    let data = sample(1700);
    assert_eq!(encode_file(&data), encode_file(&data));
}

#[test]
fn corrupted_codewords_still_decode() {
    let data = sample(700);
    let mut cws = encode_file(&data);
    cws[0][10] ^= 0x55;
    cws[1][0] ^= 0xA8;
    cws[2][999] ^= 0x03;
    let back = decode_stream(&cws).expect("light corruption must be corrected");
    assert_eq!(back, data);
}

#[test]
fn scattered_bit_flips_still_decode() {
    let data = sample(700);
    let mut cws = encode_file(&data);
    for i in 0..80usize {
        let bit = (i * 53) % 8192;
        cws[1][bit / 8] ^= 1 << (7 - (bit % 8));
    }
    let back = decode_stream(&cws).expect("moderate corruption must be corrected");
    assert_eq!(back, data);
}

#[test]
fn hopeless_codeword_is_unrecoverable() {
    let data = sample(700);
    let mut cws = encode_file(&data);
    for i in 0..1024 {
        cws[1][i] ^= (197usize.wrapping_mul(i).wrapping_add(13)) as u8;
    }
    assert_eq!(decode_stream(&cws), Err(DecodeError::Unrecoverable));
}

#[test]
fn hopeless_header_is_unrecoverable() {
    let data = sample(700);
    let mut cws = encode_file(&data);
    for i in 0..1024 {
        cws[0][i] ^= (151usize.wrapping_mul(i).wrapping_add(29)) as u8;
    }
    assert_eq!(decode_stream(&cws), Err(DecodeError::Unrecoverable));
}

#[test]
fn parallel_decode_with_variable_latency_keeps_order() {
    let data = sample(5000);
    let cws = encode_file(&data);
    let body: Vec<Vec<u8>> = cws[1..].to_vec();
    let labelled: Vec<(usize, Vec<u8>)> = body
        .into_iter()
        .enumerate()
        .parallel_map(|(i, cw)| {
            let mut spin: u64 = 0;
            for k in 0..(((i * 7919) % 13) * 100_000) {
                spin = spin.wrapping_add(k as u64);
            }
            assert!(spin < u64::MAX);
            (i, decode_codeword(&cw).unwrap())
        })
        .collect();
    let mut rebuilt: Vec<u8> = Vec::new();
    for (position, (index, frame)) in labelled.iter().enumerate() {
        assert_eq!(position, *index);
        rebuilt.extend_from_slice(&frame[..512]);
    }
    rebuilt.truncate(5000);
    assert_eq!(rebuilt, data);
}

#[test]
fn missing_codeword_truncates() {
    let data = sample(1500);
    let mut cws = encode_file(&data);
    cws.pop();
    assert_eq!(decode_stream(&cws), Err(DecodeError::Truncated));
}

#[test]
fn empty_stream_truncates() {
    let cws: Vec<Vec<u8>> = Vec::new();
    assert_eq!(decode_stream(&cws), Err(DecodeError::Truncated));
}
