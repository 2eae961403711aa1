//! The forward-error-correction primitive (an external, already-correct
//! collaborator) and the tiered decode fallback policy built on it.
use vstd::prelude::*;

verus! {

/// Number of bytes in one codeword (the code transmits n = 8192 bits).
pub const CODEWORD_BYTES: usize = 1024;

/// Number of bytes a decoder writes: the data block, the transmitted parity
/// bits and the punctured parity bits, (n + p) / 8.
pub const DECODE_OUTPUT_BYTES: usize = 1280;

/// Iteration budget handed to each decoding strategy.
pub const DECODE_ITERS: usize = 1000;

/// The codeword the error-correcting code assigns to a 512-byte block.
pub uninterp spec fn codeword_of(frame: Seq<u8>) -> Seq<u8>;

/// What the fast (hard-decision, bit-flipping) strategy returns for a received
/// codeword under a given iteration budget: the recovered buffer on success,
/// `None` on failure.
pub uninterp spec fn fast_decode(cw: Seq<u8>, iters: usize) -> Option<Seq<u8>>;

/// What the reliable (soft-decision, min-sum) strategy returns for per-bit
/// reliability values under a given iteration budget.
pub uninterp spec fn reliable_decode(llrs: Seq<i8>, iters: usize) -> Option<Seq<u8>>;

/// Hard bits turned into reliability values: -1 for a set bit, +1 for a clear
/// bit, one value per transmitted bit.
pub open spec fn llrs_of(cw: Seq<u8>) -> Seq<i8> {
    Seq::new(8192, |i: int| if (cw[i / 8] >> ((7 - (i % 8)) as u8)) & 1u8 == 1u8 {
        -1i8
    } else {
        1i8
    })
}

/// Why a decode run failed.
#[derive(Clone, Copy, Debug, PartialEq, Eq, Structural)]
pub enum DecodeError {
    /// Both decoding strategies exhausted their iteration budgets on one
    /// codeword; the file cannot be reconstructed exactly.
    Unrecoverable,
    /// The stream holds fewer codewords than the recovered file size requires.
    Truncated,
}

/// Relies on labrador_ldpc's `LDPCCode::TM8192.copy_encode`: a deterministic,
/// systematic encoding of a 512-byte block into a 1024-byte codeword.
#[verifier::external_body]
pub(crate) fn encode_block(frame: &Vec<u8>) -> (cw: Vec<u8>)
    requires
        frame@.len() == 512,
    ensures
        cw@ == codeword_of(frame@),
        cw@.len() == 1024,
{
    let mut cw = vec![0u8; 1024];
    labrador_ldpc::LDPCCode::TM8192.copy_encode(frame.as_slice(), &mut cw);
    cw
}

/// Relies on labrador_ldpc's `LDPCCode::TM8192.decode_bf`: the hard-decision
/// bit-flipping decoder, run after an erasure pass that recovers the punctured
/// parity bits. The code is systematic, an error-free codeword passes every
/// parity check unchanged, and the crate's tests decode every code's codewords
/// (even with flipped bits) within 50 iterations, so a codeword that is
/// exactly the encoding of a block yields that block in the first 512 output
/// bytes.
#[verifier::external_body]
pub(crate) fn fast_decode_block(cw: &Vec<u8>, iters: usize) -> (r: (bool, Vec<u8>))
    requires
        cw@.len() == 1024,
    ensures
        r.0 <==> fast_decode(cw@, iters) is Some,
        r.0 ==> r.1@ == fast_decode(cw@, iters)->0,
        r.1@.len() == 1280,
        forall|f: Seq<u8>|
            f.len() == 512 && cw@ == #[trigger] codeword_of(f) && iters >= 50 ==> r.0
                && r.1@.subrange(0, 512) == f,
{
    let code = labrador_ldpc::LDPCCode::TM8192;
    let mut out = vec![0u8; code.output_len()];
    let mut working = vec![0u8; code.decode_bf_working_len()];
    let (ok, _) = code.decode_bf(cw.as_slice(), &mut out, &mut working, iters);
    (ok, out)
}

/// Relies on labrador_ldpc's `LDPCCode::TM8192.hard_to_llrs`: each received
/// bit becomes the reliability value -1 (bit set) or +1 (bit clear).
#[verifier::external_body]
pub(crate) fn hard_to_llrs_block(cw: &Vec<u8>) -> (llrs: Vec<i8>)
    requires
        cw@.len() == 1024,
    ensures
        llrs@ == llrs_of(cw@),
{
    let code = labrador_ldpc::LDPCCode::TM8192;
    let mut llrs = vec![0i8; code.n()];
    code.hard_to_llrs(cw.as_slice(), &mut llrs);
    llrs
}

/// Relies on labrador_ldpc's `LDPCCode::TM8192.decode_ms`: the soft-decision
/// min-sum decoder.
#[verifier::external_body]
pub(crate) fn reliable_decode_block(llrs: &Vec<i8>, iters: usize) -> (r: (bool, Vec<u8>))
    requires
        llrs@.len() == 8192,
    ensures
        r.0 <==> reliable_decode(llrs@, iters) is Some,
        r.0 ==> r.1@ == reliable_decode(llrs@, iters)->0,
        r.1@.len() == 1280,
{
    let code = labrador_ldpc::LDPCCode::TM8192;
    let mut out = vec![0u8; code.output_len()];
    let mut working = vec![0i8; code.decode_ms_working_len()];
    let mut working_u8 = vec![0u8; code.decode_ms_working_u8_len()];
    let (ok, _) = code.decode_ms(llrs.as_slice(), &mut out, &mut working, &mut working_u8, iters);
    (ok, out)
}

/// Encode one 512-byte frame into its codeword.
pub fn encode_frame(frame: &Vec<u8>) -> (cw: Vec<u8>)
    requires
        frame@.len() == 512,
    ensures
        cw@ == codeword_of(frame@),
        cw@.len() == 1024,
{
    encode_block(frame)
}

/// The tiered decode of one codeword: the fast strategy first, then, when it
/// fails, the reliable strategy on the reliability values derived from the
/// same hard bits.
pub open spec fn decoded_frame(cw: Seq<u8>) -> Option<Seq<u8>> {
    if fast_decode(cw, DECODE_ITERS) is Some {
        fast_decode(cw, DECODE_ITERS)
    } else {
        reliable_decode(llrs_of(cw), DECODE_ITERS)
    }
}

/// A codeword that is exactly the code's encoding of some block decodes back
/// to that block, carried in the first 512 bytes of the decoder output.
pub open spec fn recovers_cleanly(cw: Seq<u8>) -> bool {
    forall|f: Seq<u8>|
        f.len() == 512 && cw == #[trigger] codeword_of(f) ==> decoded_frame(cw) is Some
            && decoded_frame(cw)->0.len() == 1280 && decoded_frame(cw)->0.subrange(0, 512) == f
}

/// Decode one codeword under the fallback policy: attempt the fast strategy,
/// escalate to the reliable strategy when it fails, and report an
/// unrecoverable codeword only when both strategies fail.
pub fn decode_codeword(cw: &Vec<u8>) -> (r: Result<Vec<u8>, DecodeError>)
    requires
        cw@.len() == 1024,
    ensures
        r is Ok <==> decoded_frame(cw@) is Some,
        r is Ok ==> r->Ok_0@ == decoded_frame(cw@)->0 && r->Ok_0@.len() == 1280,
        r is Err ==> r->Err_0 == DecodeError::Unrecoverable,
        recovers_cleanly(cw@),
{
    let (ok, out) = fast_decode_block(cw, DECODE_ITERS);
    if ok {
        return Ok(out);
    }
    let llrs = hard_to_llrs_block(cw);
    let (ok2, out2) = reliable_decode_block(&llrs, DECODE_ITERS);
    if ok2 {
        return Ok(out2);
    }
    Err(DecodeError::Unrecoverable)
}

} // verus!
