# tether

Low-memory, lossless compression for streaming numeric data and 8-bit
images, written in Verus with its behaviour proved.

- `src/entropy`: the adaptive frequency table and the rANS coder.
- `src/predictor`: delta, delta-of-delta, Gorilla XOR and adaptive linear
  (FIR) predictors, zero-run packing of residual symbols, and the block
  tournament (constant, linear ramp, delta, delta-of-delta, FIR).
- `src/stream`: bit packing, block framing, and the proof that every block
  reads back.
- `src/codec.rs`, `src/streaming.rs`: whole streams, one-shot (with blocks
  that repeat an earlier stretch written as repeat blocks) and incremental; `*_roundtrip.rs` prove that decompression gives back what
  compression was given.
- `src/image`: row filters, residual packing, grayscale (with runs of
  repeated rows and a palette) and RGB coding, and their round-trip proofs.
- `app/`: the command-line program, floating-point conversion and the
  streaming writer over `std::io::Write`.
