//! The encoder and decoder drivers: a whole file to an ordered codeword
//! stream, and an ordered codeword stream back to the exact file bytes.
use vstd::prelude::*;
use crate::codec::{
    build_header_frame, data_frame, extract_file_size, frames, header_frame,
    lemma_header_size_round_trip, num_data_frames, size_of_frame,
};
use crate::fec::{codeword_of, decode_codeword, decoded_frame, encode_frame, recovers_cleanly,
    DecodeError};

verus! {

/// The views of a sequence of codeword buffers.
pub open spec fn stream_view(cws: Seq<Vec<u8>>) -> Seq<Seq<u8>> {
    Seq::new(cws.len(), |i: int| cws[i]@)
}

/// The codeword stream that encoding a file produces: each frame of the file,
/// header first, encoded in order.
pub open spec fn encoded_stream(data: Seq<u8>) -> Seq<Seq<u8>>
    recommends
        data.len() <= u64::MAX,
{
    Seq::new(frames(data).len(), |i: int| codeword_of(frames(data)[i]))
}

/// Ceiling division by the frame size, written over quotient and remainder.
proof fn lemma_ceil_div(n: int)
    requires
        n >= 0,
    ensures
        (n + 511) / 512 == n / 512 + if n % 512 == 0 {
            0int
        } else {
            1int
        },
{
    let q = n / 512;
    let r = n % 512;
    vstd::arithmetic::div_mod::lemma_fundamental_div_mod(n, 512);
    if r == 0 {
        vstd::arithmetic::div_mod::lemma_fundamental_div_mod_converse(n + 511, 512, q, 511);
    } else {
        vstd::arithmetic::div_mod::lemma_fundamental_div_mod_converse(n + 511, 512, q + 1, r - 1);
    }
}

/// The quotient and remainder of an in-frame position.
proof fn lemma_flat_index(j: int, t: int)
    requires
        0 <= j,
        0 <= t < 512,
    ensures
        (512 * j + t) / 512 == j,
        (512 * j + t) % 512 == t,
{
    vstd::arithmetic::div_mod::lemma_fundamental_div_mod_converse(512 * j + t, 512, j, t);
}

/// Encoding emits one codeword per frame: `1 + ceil(len / 512)` of them, so a
/// zero-byte file still yields exactly one codeword, the header frame's.
pub proof fn lemma_frame_count(data: Seq<u8>)
    ensures
        encoded_stream(data).len() == 1 + (data.len() + 511) / 512,
        data.len() == 0 ==> encoded_stream(data).len() == 1,
{
}

/// Encoding is deterministic: the codeword stream is a function of the file
/// bytes alone, so encoding the same file twice produces identical streams.
pub proof fn lemma_encode_deterministic(a: Seq<u8>, b: Seq<u8>)
    requires
        a == b,
    ensures
        encoded_stream(a) == encoded_stream(b),
{
}

/// Encode a whole file: the header frame carrying the file size, then each
/// 512-byte chunk of the file (the last one zero-padded), each frame turned
/// into one codeword, emitted in frame order.
pub fn encode_file(data: &Vec<u8>) -> (cws: Vec<Vec<u8>>)
    ensures
        stream_view(cws@) == encoded_stream(data@),
        cws@.len() == 1 + num_data_frames(data@.len() as int),
        forall|i: int| 0 <= i < cws@.len() ==> (#[trigger] cws@[i])@.len() == 1024,
{
    let n = data.len();
    let mut cws: Vec<Vec<u8>> = Vec::new();
    let header = build_header_frame(n as u64);
    let cw0 = encode_frame(&header);
    cws.push(cw0);
    let n_chunks = n / 512 + if n % 512 == 0 {
        0
    } else {
        1
    };
    proof {
        lemma_ceil_div(n as int);
        vstd::arithmetic::div_mod::lemma_fundamental_div_mod(n as int + 511, 512);
    }
    let mut j: usize = 0;
    while j < n_chunks
        invariant
            n == data@.len(),
            n_chunks == num_data_frames(n as int),
            512 * n_chunks <= n + 511,
            j <= n_chunks,
            cws@.len() == 1 + j,
            cws@[0]@ == codeword_of(header_frame(n as u64)),
            forall|t: int| 0 <= t < j ==> (#[trigger] cws@[t + 1])@ == codeword_of(
                data_frame(data@, t),
            ),
            forall|i: int| 0 <= i < cws@.len() ==> (#[trigger] cws@[i])@.len() == 1024,
        decreases n_chunks - j,
    {
        proof {
            assert(512 * j <= 512 * (n_chunks - 1)) by (nonlinear_arith)
                requires
                    j < n_chunks,
            ;
        }
        let base = 512 * j;
        let mut fr: Vec<u8> = Vec::new();
        let mut i: usize = 0;
        while i < 512
            invariant
                i <= 512,
                fr@.len() == i,
                n == data@.len(),
                base == 512 * j,
                base <= n + 511 - 512,
                forall|t: int| 0 <= t < i ==> fr@[t] == data_frame(data@, j as int)[t],
            decreases 512 - i,
        {
            if i < n - base {
                fr.push(data[base + i]);
            } else {
                fr.push(0u8);
            }
            i += 1;
        }
        proof {
            assert(fr@ =~= data_frame(data@, j as int));
        }
        let cwj = encode_frame(&fr);
        cws.push(cwj);
        j += 1;
    }
    proof {
        assert forall|i: int| 0 <= i < cws@.len() implies stream_view(cws@)[i] == encoded_stream(
            data@,
        )[i] by {
            if i > 0 {
                assert(cws@[(i - 1) + 1]@ == codeword_of(data_frame(data@, i - 1)));
            }
        }
        assert(stream_view(cws@) =~= encoded_stream(data@));
    }
    cws
}

/// The bytes a fully decoded stream yields: byte `i` of the file comes from
/// data frame `i / 512` at offset `i % 512`. The length is the recovered file
/// size, so the last frame is trimmed and no padding byte leaks out.
pub open spec fn assembled(cws: Seq<Seq<u8>>, size: int) -> Seq<u8> {
    Seq::new(size as nat, |i: int| decoded_frame(cws[1 + i / 512])->0[i % 512])
}

/// What decoding an ordered codeword stream yields: the header codeword gives
/// the file size and with it the frame count; decoding fails exactly when the
/// header or a needed data codeword defeats both strategies, or when the
/// stream ends before the derived frame count is reached.
pub open spec fn stream_decode(cws: Seq<Seq<u8>>) -> Result<Seq<u8>, DecodeError> {
    if cws.len() == 0 {
        Err(DecodeError::Truncated)
    } else if decoded_frame(cws[0]) is None {
        Err(DecodeError::Unrecoverable)
    } else {
        let size = size_of_frame(decoded_frame(cws[0])->0) as int;
        if cws.len() < 1 + num_data_frames(size) {
            Err(DecodeError::Truncated)
        } else if exists|j: int|
            1 <= j <= num_data_frames(size) && #[trigger] decoded_frame(cws[j]) is None {
            Err(DecodeError::Unrecoverable)
        } else {
            Ok(assembled(cws, size))
        }
    }
}

/// Bounds that tie the data-frame count to the file size.
proof fn lemma_ndf_bounds(size: int)
    requires
        size >= 0,
    ensures
        size <= 512 * num_data_frames(size) <= size + 511,
        512 * (num_data_frames(size) - 1) < size || size == 0,
{
    vstd::arithmetic::div_mod::lemma_fundamental_div_mod(size + 511, 512);
}

/// For a stream that is exactly the encoding of `data`, with the header
/// codeword recovering cleanly, the header decodes and carries `data.len()`,
/// and the stream holds exactly the derived frame count.
proof fn lemma_clean_stream(data: Seq<u8>, sv: Seq<Seq<u8>>)
    requires
        data.len() <= u64::MAX,
        sv == encoded_stream(data),
        recovers_cleanly(sv[0]),
    ensures
        decoded_frame(sv[0]) is Some,
        size_of_frame(decoded_frame(sv[0])->0) == data.len(),
        sv.len() == 1 + num_data_frames(data.len() as int),
{
    let len64 = data.len() as u64;
    let hf = header_frame(len64);
    assert(sv[0] == codeword_of(hf));
    assert(hf.len() == 512);
    assert(decoded_frame(sv[0]) is Some && decoded_frame(sv[0])->0.subrange(0, 512) == hf);
    let out = decoded_frame(sv[0])->0;
    assert forall|k: int| 504 <= k < 512 implies out[k] == hf[k] by {
        assert(out.subrange(0, 512)[k] == out[k]);
    }
    lemma_header_size_round_trip(len64);
}

/// The last reconstructed chunk is the final data frame trimmed to exactly
/// `size - 512 * (count - 1)` bytes, where `count` is the data-frame count:
/// every decoded byte past that length is padding and never reaches the
/// output.
pub proof fn lemma_last_frame_trimmed(cws: Seq<Seq<u8>>, size: int)
    requires
        size > 0,
        decoded_frame(cws[num_data_frames(size)])->0.len() == 1280,
    ensures
        assembled(cws, size).len() == size,
        0 < size - 512 * (num_data_frames(size) - 1) <= 512,
        assembled(cws, size).skip(512 * (num_data_frames(size) - 1)) == decoded_frame(
            cws[num_data_frames(size)],
        )->0.subrange(0, size - 512 * (num_data_frames(size) - 1)),
{
    lemma_ndf_bounds(size);
    let ndf = num_data_frames(size);
    let w = 512 * (ndf - 1);
    assert forall|t: int| 0 <= t < size - w implies assembled(cws, size).skip(w)[t]
        == decoded_frame(cws[ndf])->0.subrange(0, size - w)[t] by {
        lemma_flat_index(ndf - 1, t);
        assert(assembled(cws, size).skip(w)[t] == assembled(cws, size)[t + w]);
        assert(assembled(cws, size)[t + w] == decoded_frame(cws[1 + (t + w) / 512])->0[(t + w)
            % 512]);
        assert(decoded_frame(cws[ndf])->0.subrange(0, size - w)[t] == decoded_frame(
            cws[ndf],
        )->0[t]);
    }
    assert(assembled(cws, size).skip(w) =~= decoded_frame(cws[ndf])->0.subrange(0, size - w));
}

/// Decode an ordered codeword stream back into the file bytes, in strictly
/// increasing frame order. The header codeword is decoded first to recover
/// the file size; the derived number of data codewords is then decoded, every
/// frame but the last contributing 512 bytes and the last trimmed to the
/// remaining size. A stream that is exactly the encoding of some file decodes
/// to that file, byte for byte (the round trip).
pub fn decode_stream(cws: &Vec<Vec<u8>>) -> (r: Result<Vec<u8>, DecodeError>)
    requires
        forall|i: int| 0 <= i < cws@.len() ==> (#[trigger] cws@[i])@.len() == 1024,
    ensures
        stream_decode(stream_view(cws@)) matches Ok(d) ==> r is Ok && r->Ok_0@ == d,
        stream_decode(stream_view(cws@)) matches Err(e) ==> r is Err && r->Err_0 == e,
        forall|data: Seq<u8>|
            data.len() <= u64::MAX && stream_view(cws@) == #[trigger] encoded_stream(data)
                ==> r is Ok && r->Ok_0@ == data,
{
    let ghost sv = stream_view(cws@);
    if cws.len() == 0 {
        return Err(DecodeError::Truncated);
    }
    assert(sv[0] == cws@[0]@);
    let hdr = match decode_codeword(&cws[0]) {
        Ok(h) => h,
        Err(_) => {
            proof {
                assert forall|data: Seq<u8>|
                    !(data.len() <= u64::MAX && sv == encoded_stream(data)) by {
                    if data.len() <= u64::MAX && sv == encoded_stream(data) {
                        lemma_clean_stream(data, sv);
                    }
                }
            }
            return Err(DecodeError::Unrecoverable);
        },
    };
    let size = extract_file_size(&hdr);
    let need64 = size / 512 + if size % 512 == 0 {
        0
    } else {
        1
    };
    proof {
        lemma_ceil_div(size as int);
        lemma_ndf_bounds(size as int);
    }
    if (cws.len() as u64) < need64 + 1 {
        proof {
            assert forall|data: Seq<u8>|
                !(data.len() <= u64::MAX && sv == encoded_stream(data)) by {
                if data.len() <= u64::MAX && sv == encoded_stream(data) {
                    lemma_clean_stream(data, sv);
                }
            }
        }
        return Err(DecodeError::Truncated);
    }
    let need = need64 as usize;
    let mut out: Vec<u8> = Vec::new();
    let mut j: usize = 1;
    while j <= need
        invariant
            sv == stream_view(cws@),
            cws@.len() <= usize::MAX,
            forall|i: int| 0 <= i < cws@.len() ==> (#[trigger] cws@[i])@.len() == 1024,
            decoded_frame(sv[0]) is Some,
            recovers_cleanly(sv[0]),
            hdr@ == decoded_frame(sv[0])->0,
            size == size_of_frame(decoded_frame(sv[0])->0),
            need == num_data_frames(size as int),
            cws@.len() >= 1 + need,
            size <= 512 * (need as int) <= size + 511,
            1 <= j <= need + 1,
            forall|t: int| 1 <= t < j ==> #[trigger] decoded_frame(sv[t]) is Some,
            forall|t: int| 1 <= t < j ==> #[trigger] recovers_cleanly(sv[t]),
            out@ == assembled(sv, size as int).subrange(
                0,
                vstd::math::min(512 * (j - 1), size as int),
            ),
        decreases need + 1 - j,
    {
        assert(sv[j as int] == cws@[j as int]@);
        let fr = match decode_codeword(&cws[j]) {
            Ok(f) => f,
            Err(_) => {
                proof {
                    assert(1 <= j <= num_data_frames(size as int) && decoded_frame(
                        sv[j as int],
                    ) is None);
                    assert forall|data: Seq<u8>|
                        !(data.len() <= u64::MAX && sv == encoded_stream(data)) by {
                        if data.len() <= u64::MAX && sv == encoded_stream(data) {
                            lemma_clean_stream(data, sv);
                            assert(sv[j as int] == codeword_of(data_frame(data, j - 1)));
                            assert(data_frame(data, j - 1).len() == 512);
                        }
                    }
                }
                return Err(DecodeError::Unrecoverable);
            },
        };
        proof {
            if j == need {
                assert(512 * ((need as int) - 1) < size || size == 0);
            }
        }
        let take: usize = if j < need {
            512
        } else {
            (size - 512 * ((need as u64) - 1)) as usize
        };
        let ghost written = vstd::math::min(512 * (j - 1), size as int);
        proof {
            assert(written == 512 * (j - 1));
            assert(written + take <= size);
        }
        let mut t: usize = 0;
        while t < take
            invariant
                sv == stream_view(cws@),
                1 <= j <= need,
                take <= 512,
                written == vstd::math::min(512 * (j - 1), size as int),
                written == 512 * (j - 1),
                written + take <= size,
                fr@ == decoded_frame(sv[j as int])->0,
                fr@.len() == 1280,
                t <= take,
                out@ == assembled(sv, size as int).subrange(0, written + t),
            decreases take - t,
        {
            out.push(fr[t]);
            proof {
                lemma_flat_index(j - 1, t as int);
                assert(assembled(sv, size as int)[written + t] == fr@[t as int]);
                assert(out@ =~= assembled(sv, size as int).subrange(0, written + t + 1));
            }
            t += 1;
        }
        proof {
            assert(written + take == vstd::math::min(512 * (j as int), size as int));
        }
        j += 1;
    }
    proof {
        assert(out@ =~= assembled(sv, size as int));
        assert(!(exists|j2: int|
            1 <= j2 <= num_data_frames(size as int) && #[trigger] decoded_frame(
                sv[j2],
            ) is None));
        assert(stream_decode(sv) == Ok::<Seq<u8>, DecodeError>(assembled(sv, size as int)));
        assert forall|data: Seq<u8>|
            data.len() <= u64::MAX && sv == encoded_stream(data) implies out@ == data by {
            lemma_clean_stream(data, sv);
            assert forall|i: int| 0 <= i < data.len() implies out@[i] == data[i] by {
                vstd::arithmetic::div_mod::lemma_fundamental_div_mod(i, 512);
                let q = i / 512;
                let m = i % 512;
                assert(0 <= m < 512);
                assert(512 * q <= i);
                assert(q < need as int) by {
                    assert(i < 512 * (need as int));
                }
                assert(sv[1 + q] == codeword_of(data_frame(data, q)));
                assert(data_frame(data, q).len() == 512);
                assert(recovers_cleanly(sv[1 + q]));
                assert(decoded_frame(sv[1 + q])->0.subrange(0, 512)[m] == data_frame(data, q)[m]);
                assert(data_frame(data, q)[m] == data[i]);
            }
            assert(out@ =~= data);
        }
    }
    Ok(out)
}

} // verus!
