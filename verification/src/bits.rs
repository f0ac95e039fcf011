//! Bit-level views of values: XOR folds, powers of two, and the
//! most-significant-bit-first expansion of a byte message.

use vstd::prelude::*;

verus! {

/// XOR of every element of a bit sequence (false for the empty sequence).
pub open spec fn xor_all(s: Seq<bool>) -> bool
    decreases s.len(),
{
    if s.len() == 0 {
        false
    } else {
        xor_all(s.drop_last()) ^ s.last()
    }
}

/// Appending one element XORs it onto the fold.
pub proof fn lemma_xor_all_push(s: Seq<bool>, x: bool)
    ensures
        xor_all(s.push(x)) == (xor_all(s) ^ x),
{
    assert(s.push(x).drop_last() =~= s);
}

/// 2 to the power `k`, as a mathematical integer.
pub open spec fn pow2i(k: nat) -> int
    decreases k,
{
    if k == 0 {
        1
    } else {
        2 * pow2i((k - 1) as nat)
    }
}

/// A power of two is positive.
pub proof fn lemma_pow2i_pos(k: nat)
    ensures
        pow2i(k) >= 1,
    decreases k,
{
    if k > 0 {
        lemma_pow2i_pos((k - 1) as nat);
    }
}

/// Bit `k` of byte `b`, counting from the most significant bit
/// (`k == 0` selects the 128s place, `k == 7` the units place).
pub open spec fn byte_bit(b: u8, k: int) -> bool {
    (b as int / pow2i((7 - k) as nat)) % 2 == 1
}

/// A message expanded into bits: each byte contributes its 8 bits,
/// most significant first, in byte order.
pub open spec fn spec_message_bits(msg: Seq<u8>) -> Seq<bool> {
    Seq::new(msg.len() * 8, |j: int| byte_bit(msg[j / 8], j % 8))
}

/// Expands a byte message into its bit representation, most-significant
/// bit first within each byte.
#[verifier::loop_isolation(false)]
pub fn message_bits(message: &[u8]) -> (bits: Vec<bool>)
    ensures
        bits@ == spec_message_bits(message@),
{
    let mut bits: Vec<bool> = Vec::new();
    let mut i: usize = 0;
    while i < message.len()
        invariant
            i <= message@.len(),
            bits@.len() == i * 8,
            forall|j: int| 0 <= j < i * 8 ==> bits@[j] == byte_bit(message@[j / 8], j % 8),
        decreases message@.len() - i,
    {
        let b = message[i];
        proof {
            reveal_with_fuel(pow2i, 8);
            assert(pow2i(7) == 128);
        }
        let mut d: u8 = 128;
        let mut k: usize = 0;
        while k < 8
            invariant
                k <= 8,
                bits@.len() == i * 8 + k,
                k < 8 ==> d as int == pow2i((7 - k) as nat),
                forall|j: int| 0 <= j < i * 8 + k ==> bits@[j] == byte_bit(message@[j / 8], j % 8),
            decreases 8 - k,
        {
            proof {
                lemma_pow2i_pos((7 - k) as nat);
            }
            bits.push((b / d) % 2 == 1);
            proof {
                let j = i * 8 + k;
                assert(j / 8 == i && j % 8 == k) by (nonlinear_arith)
                    requires
                        j == i * 8 + k,
                        0 <= k < 8,
                        0 <= i,
                ;
                assert(bits@[j as int] == byte_bit(message@[i as int], k as int));
            }
            d = d / 2;
            k = k + 1;
        }
        i = i + 1;
    }
    proof {
        assert(bits@ =~= spec_message_bits(message@));
    }
    bits
}

} // verus!
