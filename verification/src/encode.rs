//! The two encoders: a fixed 16-bit header codeword for a message's byte
//! length, and a variable-size payload codeword for the message's bits.

use vstd::prelude::*;
use crate::bits::{message_bits, pow2i, lemma_pow2i_pos, spec_message_bits};
use crate::codeword::{
    build_codeword, codeword_length, codeword_ok, data_placed, data_rank, is_pow2,
    lemma_codeword_unique, lemma_covering_sets_16, lemma_pow2_ordered, lemma_data_rank_mono,
};

verus! {

/// Rejected input: the value cannot be represented in the block.
#[derive(Clone, Copy, Debug, PartialEq, Eq)]
pub enum EncodeError {
    /// The byte length does not fit the header's 11 data bits.
    CapacityOverflow,
}

/// The byte length's 11-bit binary representation, most significant bit
/// first: the data sequence of the header codeword.
pub open spec fn spec_length_bits(size: int) -> Seq<bool> {
    Seq::new(11, |j: int| (size / pow2i((10 - j) as nat)) % 2 == 1)
}

/// A valid header block for byte length `size`: 16 positions whose data
/// bits spell the 11-bit length and whose parity bits obey the covering
/// rule.
pub open spec fn valid_header(c: Seq<bool>, size: int) -> bool {
    &&& c.len() == 16
    &&& codeword_ok(c)
    &&& data_placed(c, spec_length_bits(size))
}

/// A valid payload block for message `msg`: a codeword over the
/// message's bits, long enough to hold every one of them, and the
/// smallest power-of-two block that is.
pub open spec fn valid_payload(c: Seq<bool>, msg: Seq<u8>) -> bool {
    &&& codeword_ok(c)
    &&& data_rank(c.len() as int) >= msg.len() * 8
    &&& c.len() > 1 ==> data_rank(c.len() as int / 2) < msg.len() * 8
    &&& data_placed(c, spec_message_bits(msg))
}

/// Encodes a message's byte length as a 16-bit extended Hamming
/// codeword. Lengths above 2047 do not fit the 11 data bits and are
/// rejected.
#[verifier::loop_isolation(false)]
pub fn encode_message_length(size: usize) -> (r: Result<Vec<bool>, EncodeError>)
    ensures
        match r {
            Ok(c) => size <= 2047 && valid_header(c@, size as int),
            Err(e) => size > 2047 && e == EncodeError::CapacityOverflow,
        },
{
    if size > 2047 {
        return Err(EncodeError::CapacityOverflow);
    }
    let mut bits: Vec<bool> = Vec::new();
    proof {
        reveal_with_fuel(pow2i, 11);
        assert(pow2i(10) == 1024);
    }
    let mut d: usize = 1024;
    let mut k: usize = 0;
    while k < 11
        invariant
            k <= 11,
            bits@.len() == k,
            k < 11 ==> d == pow2i((10 - k) as nat),
            forall|j: int| 0 <= j < k ==> bits@[j] == spec_length_bits(size as int)[j],
        decreases 11 - k,
    {
        proof {
            lemma_pow2i_pos((10 - k) as nat);
        }
        bits.push((size / d) % 2 == 1);
        d = d / 2;
        k = k + 1;
    }
    proof {
        assert(bits@ =~= spec_length_bits(size as int));
        assert(is_pow2(16)) by {
            reveal_with_fuel(is_pow2, 5);
        }
    }
    let c = build_codeword(&bits, 16);
    Ok(c)
}

/// Encodes a message as an extended Hamming payload codeword. The block
/// is the smallest power of two whose data positions hold all of the
/// message's bits, so no bit is dropped; data positions beyond the
/// message are padded with false.
pub fn encode_message(message: &[u8]) -> (c: Vec<bool>)
    requires
        message@.len() <= usize::MAX / 256,
    ensures
        valid_payload(c@, message@),
        is_pow2(c@.len() as int),
        c@.len() >= 8 * message@.len(),
        c@.len() <= 64 * message@.len() + 8,
{
    let bits = message_bits(message);
    let len = codeword_length(bits.len());
    let c = build_codeword(&bits, len);
    proof {
        if c@.len() > 1 {
            assert(is_pow2(len as int / 2));
            assert(data_rank(len as int / 2) < bits@.len());
        }
    }
    c
}

/// Every header block the length encoder can return satisfies the
/// classical extended Hamming equations: each of the parity bits at 1,
/// 2, 4 and 8 is the XOR of its covering set, and the bit at 0 is the
/// XOR of bits 1 through 15.
pub proof fn lemma_header_parity_rule(c: Seq<bool>, size: int)
    requires
        valid_header(c, size),
    ensures
        c[1] == (c[3] ^ c[5] ^ c[7] ^ c[9] ^ c[11] ^ c[13] ^ c[15]),
        c[2] == (c[3] ^ c[6] ^ c[7] ^ c[10] ^ c[11] ^ c[14] ^ c[15]),
        c[4] == (c[5] ^ c[6] ^ c[7] ^ c[12] ^ c[13] ^ c[14] ^ c[15]),
        c[8] == (c[9] ^ c[10] ^ c[11] ^ c[12] ^ c[13] ^ c[14] ^ c[15]),
        c[0] == (c[1] ^ c[2] ^ c[3] ^ c[4] ^ c[5] ^ c[6] ^ c[7] ^ c[8] ^ c[9] ^ c[10] ^ c[11]
            ^ c[12] ^ c[13] ^ c[14] ^ c[15]),
{
    lemma_covering_sets_16(c);
}

/// Encoding is deterministic: any two valid header blocks for one byte
/// length are identical.
pub proof fn lemma_header_deterministic(c1: Seq<bool>, c2: Seq<bool>, size: int)
    requires
        valid_header(c1, size),
        valid_header(c2, size),
    ensures
        c1 == c2,
{
    lemma_codeword_unique(c1, c2, spec_length_bits(size));
}

/// Encoding is deterministic: any two valid payload blocks for one
/// message are identical.
pub proof fn lemma_payload_deterministic(c1: Seq<bool>, c2: Seq<bool>, msg: Seq<u8>)
    requires
        valid_payload(c1, msg),
        valid_payload(c2, msg),
    ensures
        c1 == c2,
{
    if c1.len() < c2.len() {
        lemma_pow2_ordered(c1.len() as int, c2.len() as int);
        lemma_data_rank_mono(c1.len() as int, c2.len() as int / 2);
        assert(false);
    }
    if c2.len() < c1.len() {
        lemma_pow2_ordered(c2.len() as int, c1.len() as int);
        lemma_data_rank_mono(c2.len() as int, c1.len() as int / 2);
        assert(false);
    }
    lemma_codeword_unique(c1, c2, spec_message_bits(msg));
}

} // verus!
