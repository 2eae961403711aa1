use ldpc_frames::codec::{build_header_frame, extract_file_size};

#[test]
fn header_frame_is_zero_then_big_endian_size() {
    let frame = build_header_frame(0x0102030405060708);
    assert_eq!(frame.len(), 512);
    for i in 0..504 {
        assert_eq!(frame[i], 0);
    }
    assert_eq!(&frame[504..512], &[1, 2, 3, 4, 5, 6, 7, 8]);
}

#[test]
fn header_frame_zero_size() {
    let frame = build_header_frame(0);
    assert_eq!(frame, vec![0u8; 512]);
    assert_eq!(extract_file_size(&frame), 0);
}

#[test]
fn extract_returns_written_size() {
    for size in [0u64, 1, 511, 512, 513, 0xDEAD_BEEF, u64::MAX] {
        let frame = build_header_frame(size);
        assert_eq!(extract_file_size(&frame), size);
    }
}

#[test]
fn extract_reads_tail_big_endian() {
    let mut frame = vec![0u8; 512];
    frame[504] = 0xAB;
    frame[511] = 0x01;
    assert_eq!(extract_file_size(&frame), 0xAB00_0000_0000_0001);
}
