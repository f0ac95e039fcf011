//! Extended Hamming codewords: the block layout, the parity covering rule,
//! and the builder that turns a data bit sequence into a valid codeword.
//!
//! A codeword of length `2^n` reserves index 0 for the overall parity bit
//! and every power-of-two index for a block parity bit; all other indices
//! hold data. The parity bit at position `p` covers exactly the data
//! positions whose binary representation has bit `log2(p)` set, and the
//! overall parity bit makes index 0 the XOR of the whole rest of the block.

use vstd::prelude::*;
use crate::bits::{xor_all, lemma_xor_all_push};

verus! {

/// `n` is a positive power of two.
pub open spec fn is_pow2(n: int) -> bool
    decreases n,
{
    if n <= 0 {
        false
    } else if n == 1 {
        true
    } else {
        n % 2 == 0 && is_pow2(n / 2)
    }
}

/// Index `i` holds a parity bit: the overall parity at 0, or a block
/// parity at a power-of-two index.
pub open spec fn is_parity_pos(i: int) -> bool {
    i == 0 || is_pow2(i)
}

/// The covering rule: position `i` is checked by the parity bit at the
/// power-of-two position `p` when the binary representation of `i` has
/// the bit of weight `p` set.
pub open spec fn covered_by(i: int, p: int) -> bool {
    (i / p) % 2 == 1
}

/// The number of data (non-parity) positions below index `i`.
pub open spec fn data_rank(i: int) -> nat
    decreases i,
{
    if i <= 0 {
        0
    } else {
        data_rank(i - 1) + (if is_parity_pos(i - 1) { 0nat } else { 1nat })
    }
}

/// The first `n` positions of `c`, with every position that the parity
/// bit at `p` does not cover masked to false. XOR-folding this sequence
/// yields the value the parity bit at `p` must take.
pub open spec fn masked_prefix(c: Seq<bool>, p: int, n: int) -> Seq<bool> {
    Seq::new(n as nat, |i: int| if !is_parity_pos(i) && covered_by(i, p) { c[i] } else { false })
}

/// The value owed to the parity bit at position `p`: the XOR of the data
/// positions of `c` that `p` covers.
pub open spec fn parity_at(c: Seq<bool>, p: int) -> bool {
    xor_all(masked_prefix(c, p, c.len() as int))
}

/// The value owed to the overall parity bit: the XOR of every position
/// of `c` other than index 0.
pub open spec fn whole_parity(c: Seq<bool>) -> bool {
    xor_all(c.subrange(1, c.len() as int))
}

/// A finished codeword: the length is a power of two, every block parity
/// bit equals the XOR of its covering set, and index 0 carries the
/// overall parity of the rest of the block.
pub open spec fn codeword_ok(c: Seq<bool>) -> bool {
    &&& is_pow2(c.len() as int)
    &&& forall|p: int| 1 <= p < c.len() && is_pow2(p) ==> c[p] == parity_at(c, p)
    &&& c[0] == whole_parity(c)
}

/// The data positions of `c` hold `data` in order: the data position of
/// rank `j` holds `data[j]`, and ranks past the end of `data` hold false.
pub open spec fn data_placed(c: Seq<bool>, data: Seq<bool>) -> bool {
    forall|i: int| 0 <= i < c.len() && !is_parity_pos(i)
        ==> c[i] == (if data_rank(i) < data.len() { data[data_rank(i) as int] } else { false })
}

/// Between a power of two and its double there is no further power of two.
pub proof fn lemma_pow2_ordered(a: int, b: int)
    requires
        is_pow2(a),
        is_pow2(b),
        a < b,
    ensures
        2 * a <= b,
    decreases b,
{
    if a > 1 {
        lemma_pow2_ordered(a / 2, b / 2);
    }
}

/// No position counts more than once: the rank never exceeds the index.
pub proof fn lemma_data_rank_le(i: int)
    requires
        i >= 0,
    ensures
        data_rank(i) <= i,
    decreases i,
{
    if i > 0 {
        lemma_data_rank_le(i - 1);
    }
}

/// The rank is monotone in the index.
pub proof fn lemma_data_rank_mono(i: int, j: int)
    requires
        i <= j,
    ensures
        data_rank(i) <= data_rank(j),
    decreases j,
{
    if i < j && j > 0 {
        lemma_data_rank_mono(i, j - 1);
    }
}

/// Doubling a power-of-two block adds one parity position (the old
/// length itself) and `l - 1` data positions.
pub proof fn lemma_data_rank_double(l: int)
    requires
        is_pow2(l),
    ensures
        data_rank(2 * l) == data_rank(l) + l - 1,
{
    lemma_data_rank_interval(l, 2 * l);
}

/// Within `(l, 2l]` every position but `l` itself is a data position,
/// so the rank grows in lockstep with the index there.
proof fn lemma_data_rank_interval(l: int, m: int)
    requires
        is_pow2(l),
        l + 1 <= m <= 2 * l,
    ensures
        data_rank(m) == data_rank(l) + (m - l - 1),
    decreases m,
{
    if m == l + 1 {
        assert(is_parity_pos(l));
    } else {
        lemma_data_rank_interval(l, m - 1);
        if is_pow2(m - 1) {
            lemma_pow2_ordered(l, m - 1);
            assert(false);
        }
        assert(!is_parity_pos(m - 1));
    }
}

/// From 16 positions on, at least half of a power-of-two block is data.
pub proof fn lemma_data_rank_half(l: int)
    requires
        is_pow2(l),
        l >= 16,
    ensures
        2 * data_rank(l) >= l,
    decreases l,
{
    if l == 16 {
        reveal_with_fuel(data_rank, 17);
        reveal_with_fuel(is_pow2, 5);
        assert(data_rank(16) == 11);
    } else {
        assert(is_pow2(16)) by {
            reveal_with_fuel(is_pow2, 5);
        }
        lemma_pow2_ordered(16, l);
        lemma_data_rank_half(l / 2);
        lemma_data_rank_double(l / 2);
    }
}

/// The value owed to a parity bit depends only on the data positions:
/// two blocks of one length that agree there owe every parity bit the
/// same value.
pub proof fn lemma_parity_at_data_only(c1: Seq<bool>, c2: Seq<bool>, p: int)
    requires
        c1.len() == c2.len(),
        forall|i: int| 0 <= i < c1.len() && !is_parity_pos(i) ==> c1[i] == c2[i],
    ensures
        parity_at(c1, p) == parity_at(c2, p),
{
    assert(masked_prefix(c1, p, c1.len() as int) =~= masked_prefix(c2, p, c2.len() as int));
}

/// Decides whether `i` holds a parity bit.
#[verifier::loop_isolation(false)]
pub fn is_parity_index(i: usize) -> (b: bool)
    ensures
        b == is_parity_pos(i as int),
{
    if i == 0 {
        return true;
    }
    let mut m: usize = i;
    while m > 1
        invariant
            1 <= m <= i,
            is_pow2(i as int) == is_pow2(m as int),
        decreases m,
    {
        if m % 2 == 1 {
            return false;
        }
        m = m / 2;
    }
    true
}

/// Counts the data positions of a block of `len` positions.
#[verifier::loop_isolation(false)]
pub fn data_capacity(len: usize) -> (r: usize)
    ensures
        r == data_rank(len as int),
{
    let mut r: usize = 0;
    let mut i: usize = 0;
    while i < len
        invariant
            i <= len,
            r <= i,
            r == data_rank(i as int),
        decreases len - i,
    {
        if !is_parity_index(i) {
            r = r + 1;
        }
        i = i + 1;
    }
    r
}

/// The smallest power-of-two block length whose data capacity holds
/// `nbits` data bits.
#[verifier::loop_isolation(false)]
pub fn codeword_length(nbits: usize) -> (r: usize)
    requires
        nbits <= usize::MAX / 32,
    ensures
        is_pow2(r as int),
        data_rank(r as int) >= nbits,
        forall|q: int| 1 <= q < r && is_pow2(q) ==> data_rank(q) < nbits,
        r <= 8 * nbits + 8,
        r >= nbits,
{
    let mut l: usize = 1;
    let mut cap = data_capacity(l);
    while cap < nbits
        invariant
            1 <= l,
            is_pow2(l as int),
            cap == data_rank(l as int),
            l <= 8 * nbits + 8,
            forall|q: int| 1 <= q < l && is_pow2(q) ==> data_rank(q) < nbits,
        decreases 8 * nbits + 8 - l,
    {
        proof {
            if l >= 16 {
                lemma_data_rank_half(l as int);
            } else {
                assert(is_pow2(8)) by {
                    reveal_with_fuel(is_pow2, 4);
                }
                if l > 8 {
                    lemma_pow2_ordered(8, l as int);
                    assert(false);
                }
            }
            assert forall|q: int| 1 <= q < 2 * l && is_pow2(q) implies data_rank(q) < nbits by {
                if q > l {
                    lemma_pow2_ordered(l as int, q);
                    assert(false);
                }
            }
        }
        l = l * 2;
        cap = data_capacity(l);
    }
    proof {
        lemma_data_rank_le(l as int);
    }
    l
}

/// The XOR fold of a 16-element sequence, written out.
#[verifier::rlimit(60)]
proof fn lemma_xor_all_16(s: Seq<bool>)
    requires
        s.len() == 16,
    ensures
        xor_all(s) == (s[0] ^ s[1] ^ s[2] ^ s[3] ^ s[4] ^ s[5] ^ s[6] ^ s[7] ^ s[8] ^ s[9]
            ^ s[10] ^ s[11] ^ s[12] ^ s[13] ^ s[14] ^ s[15]),
{
    reveal_with_fuel(xor_all, 18);
}

/// The XOR fold of a 15-element sequence, written out.
#[verifier::rlimit(60)]
proof fn lemma_xor_all_15(s: Seq<bool>)
    requires
        s.len() == 15,
    ensures
        xor_all(s) == (s[0] ^ s[1] ^ s[2] ^ s[3] ^ s[4] ^ s[5] ^ s[6] ^ s[7] ^ s[8] ^ s[9]
            ^ s[10] ^ s[11] ^ s[12] ^ s[13] ^ s[14]),
{
    reveal_with_fuel(xor_all, 17);
}

/// In a 16-position codeword the covering rule comes to the classical
/// extended Hamming sets: each parity bit is the XOR of its listed data
/// positions, and index 0 is the XOR of positions 1 through 15.
#[verifier::rlimit(100)]
pub proof fn lemma_covering_sets_16(c: Seq<bool>)
    requires
        c.len() == 16,
        codeword_ok(c),
    ensures
        c[1] == (c[3] ^ c[5] ^ c[7] ^ c[9] ^ c[11] ^ c[13] ^ c[15]),
        c[2] == (c[3] ^ c[6] ^ c[7] ^ c[10] ^ c[11] ^ c[14] ^ c[15]),
        c[4] == (c[5] ^ c[6] ^ c[7] ^ c[12] ^ c[13] ^ c[14] ^ c[15]),
        c[8] == (c[9] ^ c[10] ^ c[11] ^ c[12] ^ c[13] ^ c[14] ^ c[15]),
        c[0] == (c[1] ^ c[2] ^ c[3] ^ c[4] ^ c[5] ^ c[6] ^ c[7] ^ c[8] ^ c[9] ^ c[10] ^ c[11]
            ^ c[12] ^ c[13] ^ c[14] ^ c[15]),
{
    reveal_with_fuel(is_pow2, 6);
    assert(is_pow2(1) && is_pow2(2) && is_pow2(4) && is_pow2(8));
    assert(c[1] == parity_at(c, 1));
    assert(c[2] == parity_at(c, 2));
    assert(c[4] == parity_at(c, 4));
    assert(c[8] == parity_at(c, 8));
    lemma_xor_all_16(masked_prefix(c, 1, 16));
    lemma_xor_all_16(masked_prefix(c, 2, 16));
    lemma_xor_all_16(masked_prefix(c, 4, 16));
    lemma_xor_all_16(masked_prefix(c, 8, 16));
    lemma_xor_all_15(c.subrange(1, 16));
    assert(masked_prefix(c, 1, 16) =~= seq![
        false, false, false, c[3], false, c[5], false, c[7],
        false, c[9], false, c[11], false, c[13], false, c[15],
    ]);
    assert(masked_prefix(c, 2, 16) =~= seq![
        false, false, false, c[3], false, false, c[6], c[7],
        false, false, c[10], c[11], false, false, c[14], c[15],
    ]);
    assert(masked_prefix(c, 4, 16) =~= seq![
        false, false, false, false, false, c[5], c[6], c[7],
        false, false, false, false, c[12], c[13], c[14], c[15],
    ]);
    assert(masked_prefix(c, 8, 16) =~= seq![
        false, false, false, false, false, false, false, false,
        false, c[9], c[10], c[11], c[12], c[13], c[14], c[15],
    ]);
    assert(c.subrange(1, 16) =~= seq![
        c[1], c[2], c[3], c[4], c[5], c[6], c[7], c[8],
        c[9], c[10], c[11], c[12], c[13], c[14], c[15],
    ]);
}

/// The codeword layout is deterministic: one data sequence and one
/// block length admit exactly one valid codeword.
pub proof fn lemma_codeword_unique(c1: Seq<bool>, c2: Seq<bool>, data: Seq<bool>)
    requires
        c1.len() == c2.len(),
        codeword_ok(c1),
        codeword_ok(c2),
        data_placed(c1, data),
        data_placed(c2, data),
    ensures
        c1 == c2,
{
    assert forall|i: int| 0 <= i < c1.len() && !is_parity_pos(i) implies c1[i] == c2[i] by {}
    assert forall|i: int| 1 <= i < c1.len() implies c1[i] == c2[i] by {
        if is_parity_pos(i) {
            lemma_parity_at_data_only(c1, c2, i);
        }
    }
    assert(c1.subrange(1, c1.len() as int) =~= c2.subrange(1, c2.len() as int));
    assert(c1 =~= c2);
}

/// Builds the codeword of length `len` over `data`: data bits are laid
/// into the data positions in rank order (positions past the end of
/// `data` are filled with false, bits of `data` past the block's
/// capacity do not appear), then every block parity bit and finally the
/// overall parity bit are computed from them.
#[verifier::loop_isolation(false)]
#[verifier::rlimit(60)]
pub fn build_codeword(data: &Vec<bool>, len: usize) -> (c: Vec<bool>)
    requires
        is_pow2(len as int),
        len <= usize::MAX / 2,
    ensures
        c@.len() == len,
        codeword_ok(c@),
        data_placed(c@, data@),
{
    let mut c: Vec<bool> = Vec::new();
    let mut rank: usize = 0;
    let mut i: usize = 0;
    while i < len
        invariant
            i <= len,
            c@.len() == i,
            rank <= i,
            rank == data_rank(i as int),
            forall|j: int| 0 <= j < i && !is_parity_pos(j)
                ==> c@[j] == (if data_rank(j) < data@.len() { data@[data_rank(j) as int] } else { false }),
        decreases len - i,
    {
        if is_parity_index(i) {
            c.push(false);
        } else {
            if rank < data.len() {
                let b = data[rank];
                c.push(b);
            } else {
                c.push(false);
            }
            rank = rank + 1;
        }
        i = i + 1;
    }

    let mut p: usize = 1;
    while p < len
        invariant
            1 <= p,
            is_pow2(p as int),
            c@.len() == len,
            data_placed(c@, data@),
            forall|q: int| 1 <= q < p && is_pow2(q) ==> c@[q] == parity_at(c@, q),
        decreases len - p,
    {
        let mut acc: bool = false;
        let mut i: usize = 0;
        while i < len
            invariant
                i <= len,
                acc == xor_all(masked_prefix(c@, p as int, i as int)),
            decreases len - i,
        {
            let ghost pre = masked_prefix(c@, p as int, i as int);
            let ghost bit = if !is_parity_pos(i as int) && covered_by(i as int, p as int) {
                c@[i as int]
            } else {
                false
            };
            if !is_parity_index(i) && (i / p) % 2 == 1 {
                acc = acc ^ c[i];
            }
            proof {
                assert(masked_prefix(c@, p as int, i + 1) =~= pre.push(bit));
                lemma_xor_all_push(pre, bit);
            }
            i = i + 1;
        }
        let ghost before = c@;
        c.set(p, acc);
        proof {
            assert(is_parity_pos(p as int));
            assert forall|j: int| 0 <= j < len && !is_parity_pos(j) implies c@[j] == before[j] by {}
            lemma_parity_at_data_only(before, c@, p as int);
            assert forall|q: int| 1 <= q <= p && is_pow2(q) implies c@[q] == parity_at(c@, q) by {
                if q < p {
                    lemma_parity_at_data_only(before, c@, q);
                }
            }
            assert forall|q: int| 1 <= q < 2 * p && is_pow2(q) implies q <= p by {
                if q > p {
                    lemma_pow2_ordered(p as int, q);
                }
            }
        }
        p = p * 2;
    }

    let mut acc: bool = false;
    let mut i: usize = 1;
    while i < len
        invariant
            1 <= i <= len,
            acc == xor_all(c@.subrange(1, i as int)),
        decreases len - i,
    {
        let ghost pre = c@.subrange(1, i as int);
        acc = acc ^ c[i];
        proof {
            assert(c@.subrange(1, i + 1) =~= pre.push(c@[i as int]));
            lemma_xor_all_push(pre, c@[i as int]);
        }
        i = i + 1;
    }
    let ghost before = c@;
    c.set(0, acc);
    proof {
        assert(c@.subrange(1, len as int) =~= before.subrange(1, len as int));
        assert forall|j: int| 0 <= j < len && !is_parity_pos(j) implies c@[j] == before[j] by {}
        assert forall|q: int| 1 <= q < len && is_pow2(q) implies c@[q] == parity_at(c@, q) by {
            lemma_parity_at_data_only(before, c@, q);
        }
    }
    c
}

} // verus!
