# cbc-core

Context-Bound Container (CBC): a binary container whose blocks are bound
together by a hash chain (Family A), an optional Merkle tree (Family B) and
optional self-delimiting prefix markers (Family C), with signed receipts
that link an artifact to the artifacts derived from it.

The library in `src/` is written in Verus. Every function carries a
contract over a mathematical model of the wire format (spec functions on
byte sequences), and the central properties are proved:

- decoding what the encoder writes gives back the payload, the roots and
  the receipts (`encoder::encode`, `roundtrip::lemma_encode_decode`); a
  plain encoding decodes without a key to a segment that repeats the
  configuration, with one block per block-size bytes of payload, rounded
  up (`roundtrip::lemma_plain_encode_decode_fields`,
  `decoder::lemma_unencrypted_decode_key_free`);
- no strict prefix of an encoded artifact decodes; exchanging two blocks,
  or changing a block's stored commitment, the footer's chain root, the
  footer's commitment or the params MAC, makes an artifact fail to decode
  (`roundtrip::lemma_truncation_rejected`, `decoder::lemma_reorder_rejected`,
  `decoder::lemma_commitment_tamper_rejected`,
  `decoder::lemma_footer_root_tamper_rejected`,
  `decoder::lemma_footer_commitment_tamper_rejected`, `decoder::lemma_mac_tamper_rejected`);
- a changed byte in a block's padded payload (a flipped bit among them)
  fails that block's CRC-32C check, in the decoder and in the streaming
  decoder, and a block header changed outside its payload-length field is
  refused (`block::lemma_crc32c_detects_one_byte`,
  `decoder::lemma_payload_byte_tamper_rejected`,
  `streaming::lemma_fed_payload_change_rejected`,
  `decoder::lemma_header_tamper_rejected`);
- blocks that store the commitments the chain computes for them verify
  with its root, and the first block that stores another is the one
  reported (`chain::lemma_recommitted_chain`);
- validation runs every integrity check without a key and without
  extracting the payload; what the encoder writes validates, and for plain
  artifacts validation and decoding agree (`decoder::validate`,
  `decoder::lemma_plain_validate_is_decode`);
- a plain artifact streamed block by block gives what decoding it whole
  gives (`decoder::lemma_stream_decodes_like_batch`);
- Merkle proofs and range proofs made for a tree verify against its root
  (`merkle::lemma_prove_then_verify`, `range::lemma_prove_range_then_verify`);
  range proofs hold at most two siblings per level, so O(log n) of them,
  and still verify once encoded and decoded (`range::lemma_range_proof_size`,
  `range::lemma_range_proof_survives_encoding`);
- every encoding has its decoding: bootstrap segment, block header,
  footer, prefix marker, varint, range proof and receipt;
- a streamed artifact, its header patched, is the batch encoding and
  decodes to the payload (`streaming::lemma_stream_matches_batch`,
  `roundtrip::lemma_streamed_artifact_decodes`); the streaming decoder
  refuses a block out of turn by its index
  (`streaming::lemma_fed_block_out_of_turn`);
- a receipt made with a signing key verifies (`transform::receipt::create_receipt`).

Hashing, AEAD encryption, compression, CRC-32C, signatures, randomness and
the clock are called in their crates through small trusted wrappers whose
contracts name what the crates compute; the CRC-32C is stated in full, bit
by bit.

Layout:

- `src/` — the verified library (format, encoder, decoder, streaming,
  Merkle and range proofs, transforms and receipts, and the decisions behind
  the command-line tool, the HTTP service and the language bindings);
- `tests/` — tests run against the compiled library;
- `app/` — the `cbc` command-line program: argument parsing, files,
  terminal output.
