//! Internet checksum arithmetic: 16-bit one's-complement sums and their
//! incremental update when a word of the covered data changes.

use vstd::prelude::*;
use vstd::arithmetic::div_mod::*;

verus! {

/// One's-complement addition of two 16-bit words: a carry out of the top is
/// added back in at the bottom.
pub open spec fn ones_add(a: int, b: int) -> int {
    if a + b > 0xFFFF {
        a + b - 0xFFFF
    } else {
        a + b
    }
}

/// The checksum `hc` after one covered word went from `old` to `new`
/// (RFC 1624): `HC' = ~(~HC + ~m + m')` in one's-complement arithmetic.
pub open spec fn updated_checksum(hc: u16, old_word: u16, new_word: u16) -> u16 {
    (0xFFFF - ones_add(ones_add(0xFFFF - hc, 0xFFFF - old_word), new_word as int)) as u16
}

/// The plain sum of the big-endian 16-bit words of `s`; an odd last byte is
/// padded with a zero byte.
pub open spec fn word_sum(s: Seq<u8>) -> int
    decreases s.len(),
{
    if s.len() == 0 {
        0
    } else if s.len() == 1 {
        s[0] * 256
    } else {
        s[0] * 256 + s[1] + word_sum(s.skip(2))
    }
}

/// The big-endian 16-bit word of `s` at byte offset `o`.
pub open spec fn be16(s: Seq<u8>, o: int) -> u16 {
    (s[o] * 256 + s[o + 1]) as u16
}

/// `s` with the big-endian 16-bit word at byte offset `o` replaced by `v`.
pub open spec fn put16(s: Seq<u8>, o: int, v: u16) -> Seq<u8> {
    s.update(o, (v / 256) as u8).update(o + 1, (v % 256) as u8)
}

/// Incremental 16-bit one's-complement checksum update (RFC 1624):
/// `HC' = ~(~HC + ~m + m')`. All values are the plain 16-bit numeric words.
pub fn csum_replace(hc: u16, old_word: u16, new_word: u16) -> (updated: u16)
    ensures
        updated == updated_checksum(hc, old_word, new_word),
{
    assert(!hc == 0xFFFF - hc) by (bit_vector);
    assert(!old_word == 0xFFFF - old_word) by (bit_vector);
    let not_hc: u32 = !hc as u32;
    let not_old: u32 = !old_word as u32;
    assert(not_hc & 0xFFFF == not_hc) by (bit_vector)
        requires
            not_hc <= 0xFFFF,
    ;
    assert(not_old & 0xFFFF == not_old) by (bit_vector)
        requires
            not_old <= 0xFFFF,
    ;
    let mut sum: u32 = not_hc & 0xFFFF;
    sum = sum + (not_old & 0xFFFF);
    sum = sum + new_word as u32;
    // Fold carries (at most two folds are ever needed).
    let first: u32 = sum;
    assert(first & 0xFFFF == first % 0x10000 && first >> 16 == first / 0x10000) by (bit_vector);
    sum = (sum & 0xFFFF) + (sum >> 16);
    let second: u32 = sum;
    assert(second & 0xFFFF == second % 0x10000 && second >> 16 == second / 0x10000) by (bit_vector);
    sum = (sum & 0xFFFF) + (sum >> 16);
    let folded: u16 = sum as u16;
    assert(!folded == 0xFFFF - folded) by (bit_vector);
    !folded
}

/// Law: replacing a covered word and its checksum together moves the sum of the
/// covered words only by a multiple of `0xFFFF`, so a checksum that verified
/// keeps verifying and one that did not keeps failing.
pub proof fn update_keeps_residue(hc: u16, old_word: u16, new_word: u16)
    ensures
        (updated_checksum(hc, old_word, new_word) + new_word) % 0xFFFF == (hc + old_word) % 0xFFFF,
{
    let a = 0xFFFF - hc;
    let b = 0xFFFF - old_word;
    let s = ones_add(a, b);
    let k1: int = if a + b > 0xFFFF {
        1
    } else {
        0
    };
    let k2: int = if s + new_word > 0xFFFF {
        1
    } else {
        0
    };
    let k = k1 + k2 - 1;
    assert(updated_checksum(hc, old_word, new_word) + new_word == 0xFFFF * k + (hc + old_word));
    lemma_mod_multiples_vanish(k, hc + old_word, 0xFFFF);
}

/// Replacing the word at an even offset changes the word sum by the difference.
pub proof fn lemma_word_sum_put(s: Seq<u8>, o: int, v: u16)
    requires
        0 <= o,
        o + 2 <= s.len(),
        o % 2 == 0,
    ensures
        word_sum(put16(s, o, v)) == word_sum(s) - be16(s, o) + v,
    decreases o,
{
    let t = put16(s, o, v);
    if o == 0 {
        assert(t.skip(2) =~= s.skip(2));
        assert((v / 256) as u8 * 256 + (v % 256) as u8 == v);
    } else {
        assert(t.skip(2) =~= put16(s.skip(2), o - 2, v));
        assert(be16(s.skip(2), o - 2) == be16(s, o));
        lemma_word_sum_put(s.skip(2), o - 2, v);
    }
}

/// Law: the updated checksum is the complement of the one's-complement sum of the
/// complements of the checksum and the old word, and the new word. Such a sum is zero
/// only if all its terms are.
pub proof fn update_is_a_ones_complement_sum(hc: u16, old_word: u16, new_word: u16)
    ensures
        ({
            let sum = (0xFFFF - hc) + (0xFFFF - old_word) + new_word;
            updated_checksum(hc, old_word, new_word) == 0xFFFF - (if sum == 0 {
                0
            } else {
                (sum - 1) % 0xFFFF + 1
            })
        }),
{
}

} // verus!
