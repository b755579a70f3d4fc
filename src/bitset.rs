use vstd::prelude::*;

verus! {

/// Largest ground-set size the bitset can hold subsets of.
pub const MAX_N: usize = 7;

/// Number of subsets of a ground set of size `MAX_N`.
pub const MAX_SUBSETS: usize = 128;

/// Number of 64-bit words needed for one bit per subset.
pub const BITSET_WORDS: usize = 2;

/// One membership bit per subset of the ground set, indexed by the subset's bit pattern.
pub type Bitset = [u64; BITSET_WORDS];

/// Whether bit `b` of word `w` is set.
pub open spec fn bit_of(w: u64, b: u64) -> bool {
    (w >> b) & 1u64 == 1u64
}

/// The subsets whose membership bit is set.
pub open spec fn members(bitset: Bitset) -> Set<usize> {
    Set::new(|i: usize| i < MAX_SUBSETS && bit_of(bitset[i as int / 64], (i % 64) as u64))
}

proof fn lemma_zero_bits(c: u64)
    requires
        c < 64,
    ensures
        !bit_of(0u64, c),
{
    assert((0u64 >> c) & 1u64 == 0u64) by (bit_vector);
}

proof fn lemma_or_bit(w: u64, b: u64, c: u64)
    requires
        b < 64,
        c < 64,
    ensures
        bit_of(w | (1u64 << b), c) == (c == b || bit_of(w, c)),
{
    assert(((w | (1u64 << b)) >> c) & 1u64 == 1u64 <==> (c == b || (w >> c) & 1u64 == 1u64))
        by (bit_vector)
        requires
            b < 64,
            c < 64,
    ;
}

proof fn lemma_index_split(index: usize)
    ensures
        index >> 6 == index / 64,
        index & 63 == index % 64,
{
    assert(index >> 6 == index / 64) by (bit_vector);
    assert(index & 63 == index % 64) by (bit_vector);
}

/// Clears every bit: afterwards the bitset has no members.
pub fn bs_clear(bitset: &mut Bitset)
    ensures
        members(*final(bitset)) == Set::<usize>::empty(),
{
    let mut word: usize = 0;
    while word < BITSET_WORDS
        invariant
            word <= BITSET_WORDS,
            forall|k: int| 0 <= k < word ==> bitset[k] == 0u64,
        decreases BITSET_WORDS - word,
    {
        bitset[word] = 0u64;
        word = word + 1;
    }
    assert forall|i: usize| !members(*bitset).contains(i) by {
        if i < MAX_SUBSETS {
            lemma_zero_bits((i % 64) as u64);
        }
    }
    assert(members(*bitset) =~= Set::<usize>::empty());
}

/// Copies `source` into `destination`.
pub fn bs_copy(destination: &mut Bitset, source: &Bitset)
    ensures
        *final(destination) == *source,
        members(*final(destination)) == members(*source),
{
    *destination = *source;
}

/// Adds `index` to the members.
pub fn bs_set(bitset: &mut Bitset, index: usize)
    requires
        index < MAX_SUBSETS,
    ensures
        members(*final(bitset)) == members(*old(bitset)).insert(index),
{
    let word: usize = index >> 6;
    let bit: usize = index & 63;
    proof {
        lemma_index_split(index);
    }
    let updated: u64 = bitset[word] | (1u64 << (bit as u64));
    let ghost before: Bitset = *bitset;
    bitset[word] = updated;
    assert forall|i: usize|
        members(*bitset).contains(i) == members(before).insert(index).contains(i) by {
        if i < MAX_SUBSETS && i / 64 == word {
            lemma_or_bit(before[word as int], bit as u64, (i % 64) as u64);
        }
    }
    assert(members(*bitset) =~= members(before).insert(index));
}

/// Whether `index` is a member.
pub fn bs_get(bitset: &Bitset, index: usize) -> (r: bool)
    requires
        index < MAX_SUBSETS,
    ensures
        r == members(*bitset).contains(index),
{
    let word: usize = index >> 6;
    let bit: usize = index & 63;
    proof {
        lemma_index_split(index);
        let w: u64 = bitset[word as int];
        let b: u64 = bit as u64;
        assert(((w >> b) & 1u64 != 0u64) == ((w >> b) & 1u64 == 1u64)) by (bit_vector);
    }
    ((bitset[word] >> (bit as u64)) & 1u64) != 0u64
}

} // verus!
