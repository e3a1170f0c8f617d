//! How a machine word is stored in the region: eight bytes, least significant first.
use vstd::prelude::*;

verus! {

/// Bytes that one stored word occupies.
pub const WORD_SIZE: usize = 8;

/// The value of the word stored at `at`.
pub open spec fn word(s: Seq<u8>, at: int) -> u64 {
    (s[at] as u64) | ((s[at + 1] as u64) << 8u64) | ((s[at + 2] as u64) << 16u64) | ((s[at
        + 3] as u64) << 24u64) | ((s[at + 4] as u64) << 32u64) | ((s[at + 5] as u64) << 40u64)
        | ((s[at + 6] as u64) << 48u64) | ((s[at + 7] as u64) << 56u64)
}

/// Two byte sequences that agree on the eight bytes at `at` hold the same word there.
pub proof fn lemma_word_frame(s: Seq<u8>, t: Seq<u8>, at: int)
    requires
        forall|j: int| at <= j < at + 8 ==> s[j] == t[j],
    ensures
        word(s, at) == word(t, at),
{
    assert(s[at] == t[at] && s[at + 1] == t[at + 1] && s[at + 2] == t[at + 2] && s[at + 3] == t[at
        + 3]);
    assert(s[at + 4] == t[at + 4] && s[at + 5] == t[at + 5] && s[at + 6] == t[at + 6] && s[at + 7]
        == t[at + 7]);
}

/// Eight zero bytes hold the word 0.
pub proof fn lemma_word_zero(s: Seq<u8>, at: int)
    requires
        forall|j: int| at <= j < at + 8 ==> s[j] == 0,
    ensures
        word(s, at) == 0,
{
    let b0 = s[at];
    let b1 = s[at + 1];
    let b2 = s[at + 2];
    let b3 = s[at + 3];
    let b4 = s[at + 4];
    let b5 = s[at + 5];
    let b6 = s[at + 6];
    let b7 = s[at + 7];
    assert(b0 == 0 && b1 == 0 && b2 == 0 && b3 == 0 && b4 == 0 && b5 == 0 && b6 == 0 && b7 == 0);
    assert((b0 as u64) | ((b1 as u64) << 8u64) | ((b2 as u64) << 16u64) | ((b3 as u64) << 24u64)
        | ((b4 as u64) << 32u64) | ((b5 as u64) << 40u64) | ((b6 as u64) << 48u64) | ((b7 as u64)
        << 56u64) == 0) by (bit_vector)
        requires
            b0 == 0 && b1 == 0 && b2 == 0 && b3 == 0 && b4 == 0 && b5 == 0 && b6 == 0 && b7 == 0,
    ;
}

proof fn lemma_bytes_of_word(v: u64)
    ensures
        ((v as u8) as u64) | ((((v >> 8u64) as u8) as u64) << 8u64) | ((((v >> 16u64) as u8) as u64)
            << 16u64) | ((((v >> 24u64) as u8) as u64) << 24u64) | ((((v >> 32u64) as u8) as u64)
            << 32u64) | ((((v >> 40u64) as u8) as u64) << 40u64) | ((((v >> 48u64) as u8) as u64)
            << 48u64) | ((((v >> 56u64) as u8) as u64) << 56u64) == v,
{
    assert(((v as u8) as u64) | ((((v >> 8u64) as u8) as u64) << 8u64) | ((((v >> 16u64) as u8) as u64)
            << 16u64) | ((((v >> 24u64) as u8) as u64) << 24u64) | ((((v >> 32u64) as u8) as u64)
            << 32u64) | ((((v >> 40u64) as u8) as u64) << 40u64) | ((((v >> 48u64) as u8) as u64)
            << 48u64) | ((((v >> 56u64) as u8) as u64) << 56u64) == v) by (bit_vector);
}

/// Reads the word stored at `at`.
pub fn read_word(region: &[u8], at: usize) -> (r: u64)
    requires
        at + 8 <= region@.len(),
    ensures
        r == word(region@, at as int),
{
    (region[at] as u64) | ((region[at + 1] as u64) << 8u64) | ((region[at + 2] as u64) << 16u64)
        | ((region[at + 3] as u64) << 24u64) | ((region[at + 4] as u64) << 32u64) | ((region[at
        + 5] as u64) << 40u64) | ((region[at + 6] as u64) << 48u64) | ((region[at + 7] as u64)
        << 56u64)
}

/// Stores `v` at `at`, leaving every other byte as it was.
pub fn write_word(region: &mut [u8], at: usize, v: u64)
    requires
        at + 8 <= old(region)@.len(),
    ensures
        final(region)@.len() == old(region)@.len(),
        word(final(region)@, at as int) == v,
        forall|j: int|
            0 <= j < old(region)@.len() && !(at <= j < at + 8) ==> final(region)@[j]
                == old(region)@[j],
{
    region[at] = v as u8;
    region[at + 1] = (v >> 8u64) as u8;
    region[at + 2] = (v >> 16u64) as u8;
    region[at + 3] = (v >> 24u64) as u8;
    region[at + 4] = (v >> 32u64) as u8;
    region[at + 5] = (v >> 40u64) as u8;
    region[at + 6] = (v >> 48u64) as u8;
    region[at + 7] = (v >> 56u64) as u8;
    proof {
        lemma_bytes_of_word(v);
    }
}

} // verus!
