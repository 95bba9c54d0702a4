//! A variable-length integer codec: Protocol-Buffers-style base-128
//! varints and LEB128, for unsigned and (zig-zag or sign-extended)
//! signed 64-bit values, over buffers or byte streams.

mod adapters;
mod codec;
mod errors;
mod laws;
mod model;
mod stream;

pub use adapters::ReadBytesVarExt;
pub use adapters::WriteBytesVarExt;
pub use codec::low_bits_of_byte;
pub use codec::low_bits_of_u64;
pub use codec::Binary;
pub use codec::ReadBinary;
pub use codec::WriteBinary;
pub use codec::CONTINUATION_BIT;
pub use codec::MAX_VARINT_LEN16;
pub use codec::MAX_VARINT_LEN32;
pub use codec::MAX_VARINT_LEN64;

pub use stream::ByteCursor;
pub use stream::ByteSink;
pub use stream::ReadU8;
pub use stream::ReadU8Ext;
pub use stream::SliceReader;

pub use laws::lemma_enc_zero;
pub use laws::lemma_sleb_enc_len;
pub use laws::lemma_sleb_overflow;
pub use laws::lemma_sleb_round_trip;
pub use laws::lemma_sleb_truncation;
pub use laws::lemma_uleb_overflow;
pub use laws::lemma_uleb_round_trip;
pub use laws::lemma_uleb_truncation;
pub use laws::lemma_unzigzag_round_trip;
pub use laws::lemma_vi64_round_trip;
pub use laws::lemma_vu64_len_groups;
pub use laws::lemma_vu64_len_monotone;
pub use laws::lemma_vu64_overflow;
pub use laws::lemma_vu64_overflow_last;
pub use laws::lemma_vu64_round_trip;
pub use laws::lemma_vu64_truncation;
pub use laws::lemma_zigzag_injective;
pub use laws::lemma_zigzag_no_collision;
pub use laws::lemma_zigzag_round_trip;

pub use errors::Leb128Error;
pub use errors::ReadError;
pub use errors::WriteError;
pub use model::le7_val;
pub use model::pow128;
pub use model::sleb_dec;
pub use model::sleb_enc;
pub use model::sleb_used;
pub use model::sleb_val;
pub use model::uleb_dec;
pub use model::uleb_used;
pub use model::unzigzag;
pub use model::vi64_dec;
pub use model::vu64_dec;
pub use model::vu64_enc;
pub use model::vu64_used;
pub use model::zigzag;
