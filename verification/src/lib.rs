//! Send a file over a noisy, block-oriented channel: split it into fixed-size
//! frames, embed the file size in the first frame, protect every frame with a
//! forward-error-correcting code, and reassemble the exact file bytes from
//! possibly-corrupted codewords with a tiered decode fallback.
pub mod codec;
pub mod fec;
pub mod pipeline;
