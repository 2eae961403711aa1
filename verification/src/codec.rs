//! Frame layout: the fixed block size, the size header carried by the first
//! frame, and the zero-padding rule for the last chunk of a file.
use vstd::prelude::*;

verus! {

/// Number of payload bytes carried by one plaintext frame.
pub const LIMIT: usize = 512;

/// The `j`-th byte, in big-endian order (`0 <= j < 8`), of a 64-bit file size.
pub open spec fn size_byte(size: u64, j: int) -> u8 {
    (size >> ((8 * (7 - j)) as u64)) as u8
}

/// The header frame for a file of `size` bytes: zero-filled except for the
/// last 8 bytes, which hold `size` so that reading them back as a big-endian
/// integer yields `size` again.
pub open spec fn header_frame(size: u64) -> Seq<u8> {
    Seq::new(512, |i: int| if i < 504 { 0u8 } else { size_byte(size, i - 504) })
}

/// The file size recorded in a recovered first frame: bytes 504..512 read as
/// a big-endian integer.
pub open spec fn size_of_frame(frame: Seq<u8>) -> u64
    recommends
        frame.len() >= 512,
{
    ((frame[504] as u64) << 56u64) | ((frame[505] as u64) << 48u64)
        | ((frame[506] as u64) << 40u64) | ((frame[507] as u64) << 32u64)
        | ((frame[508] as u64) << 24u64) | ((frame[509] as u64) << 16u64)
        | ((frame[510] as u64) << 8u64) | (frame[511] as u64)
}

/// Number of data frames that follow the header frame for a file of `size`
/// bytes: `ceil(size / 512)`.
pub open spec fn num_data_frames(size: int) -> int {
    (size + 511) / 512
}

/// The `j`-th data frame of a file: the 512 bytes starting at offset
/// `512 * j`, zero-padded once the file is exhausted.
pub open spec fn data_frame(data: Seq<u8>, j: int) -> Seq<u8> {
    Seq::new(512, |i: int| if 512 * j + i < data.len() { data[512 * j + i] } else { 0u8 })
}

/// The frame sequence covering a file: the header frame, then one data frame
/// per 512-byte chunk.
pub open spec fn frames(data: Seq<u8>) -> Seq<Seq<u8>>
    recommends
        data.len() <= u64::MAX,
{
    Seq::new(
        (1 + num_data_frames(data.len() as int)) as nat,
        |i: int|
            if i == 0 {
                header_frame(data.len() as u64)
            } else {
                data_frame(data, i - 1)
            },
    )
}

/// Writing a size into the header frame and reading it back as a big-endian
/// integer returns the size unchanged.
pub proof fn lemma_header_size_round_trip(size: u64)
    ensures
        size_of_frame(header_frame(size)) == size,
{
    let f = header_frame(size);
    assert(f[504] == (size >> 56u64) as u8);
    assert(f[505] == (size >> 48u64) as u8);
    assert(f[506] == (size >> 40u64) as u8);
    assert(f[507] == (size >> 32u64) as u8);
    assert(f[508] == (size >> 24u64) as u8);
    assert(f[509] == (size >> 16u64) as u8);
    assert(f[510] == (size >> 8u64) as u8);
    assert(f[511] == (size >> 0u64) as u8);
    assert((((size >> 56u64) as u8 as u64) << 56u64) | (((size >> 48u64) as u8 as u64) << 48u64)
        | (((size >> 40u64) as u8 as u64) << 40u64) | (((size >> 32u64) as u8 as u64) << 32u64)
        | (((size >> 24u64) as u8 as u64) << 24u64) | (((size >> 16u64) as u8 as u64) << 16u64)
        | (((size >> 8u64) as u8 as u64) << 8u64) | ((size >> 0u64) as u8 as u64)
        == size) by (bit_vector);
    assert(size >> 0u64 == size) by (bit_vector);
}

/// Build the header frame for a file of `size` bytes.
pub fn build_header_frame(size: u64) -> (frame: Vec<u8>)
    ensures
        frame@ == header_frame(size),
        frame@.len() == 512,
{
    let mut frame: Vec<u8> = Vec::new();
    while frame.len() < 504
        invariant
            frame@.len() <= 504,
            forall|i: int| 0 <= i < frame@.len() ==> frame@[i] == 0u8,
        decreases 504 - frame@.len(),
    {
        frame.push(0u8);
    }
    let mut j: usize = 0;
    while j < 8
        invariant
            j <= 8,
            frame@.len() == 504 + j,
            forall|i: int| 0 <= i < 504 ==> frame@[i] == 0u8,
            forall|i: int| 0 <= i < j ==> frame@[504 + i] == size_byte(size, i),
        decreases 8 - j,
    {
        let sh: u64 = (8 * (7 - j)) as u64;
        frame.push((size >> sh) as u8);
        j += 1;
    }
    proof {
        assert(frame@ =~= header_frame(size));
    }
    frame
}

/// Read the file size out of a recovered first frame.
pub fn extract_file_size(frame: &Vec<u8>) -> (size: u64)
    requires
        frame@.len() >= 512,
    ensures
        size == size_of_frame(frame@),
{
    ((frame[504] as u64) << 56u64) | ((frame[505] as u64) << 48u64)
        | ((frame[506] as u64) << 40u64) | ((frame[507] as u64) << 32u64)
        | ((frame[508] as u64) << 24u64) | ((frame[509] as u64) << 16u64)
        | ((frame[510] as u64) << 8u64) | (frame[511] as u64)
}

} // verus!
