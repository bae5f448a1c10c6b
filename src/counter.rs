//! Packed 2-bit counters: sixteen of them in each 32-bit word, the counter at
//! even bit offset `s` occupying bits `s` and `s + 1`.

use vstd::prelude::*;

verus! {

/// The low bit of every counter in a word.
pub const LOW_BITS: u32 = 0x5555_5555;

/// `s` addresses one counter of a word: an even offset below 32.
pub open spec fn valid_offset(s: u32) -> bool {
    s < 32 && s % 2 == 0
}

/// The raw value (0 to 3) of the counter at offset `s`.
pub open spec fn counter(w: u32, s: u32) -> u32 {
    (w >> s) & 3
}

/// What a counter tells: 0 or 1 observations, or 2 and more (raw 2 and 3).
pub open spec fn level(c: u32) -> nat {
    if c >= 2 {
        2
    } else {
        c as nat
    }
}

/// One increment of the counter at `s`: its low bit is added to itself and
/// or-ed in, so 0 becomes 1 and 1 becomes 3; 2 and 3 become 3.
pub open spec fn bumped(w: u32, s: u32) -> u32 {
    w | (((w & (1u32 << s)) + (1u32 << s)) as u32)
}

/// Counter-wise saturating sum of two words.
pub open spec fn merged(a: u32, b: u32) -> u32 {
    a | b | (((a & LOW_BITS) + (b & LOW_BITS)) as u32)
}

/// Incrementing needs no wrap-around: the sum stays inside the word.
pub proof fn lemma_bump_fits(w: u32, s: u32)
    requires
        valid_offset(s),
    ensures
        (w & (1u32 << s)) + (1u32 << s) <= u32::MAX,
{
    assert((w & (1u32 << s)) + (1u32 << s) <= u32::MAX) by (bit_vector)
        requires
            s < 32 && s % 2 == 0,
    ;
}

/// Merging needs no wrap-around: only even bits are added.
pub proof fn lemma_merge_fits(a: u32, b: u32)
    ensures
        (a & LOW_BITS) + (b & LOW_BITS) <= u32::MAX,
{
    assert((a & 0x5555_5555u32) + (b & 0x5555_5555u32) <= u32::MAX) by (bit_vector);
}

/// The incremented counter is non-zero, and it reaches 2 exactly when it was
/// non-zero before.
pub proof fn lemma_bump_same(w: u32, s: u32)
    requires
        valid_offset(s),
    ensures
        counter(bumped(w, s), s) >= 1,
        counter(bumped(w, s), s) >= 2 <==> counter(w, s) >= 1,
        level(counter(bumped(w, s), s)) == if level(counter(w, s)) + 1 >= 2 {
            2
        } else {
            level(counter(w, s)) + 1
        },
{
    assert(((w | (((w & (1u32 << s)) + (1u32 << s)) as u32)) >> s) & 3 >= 1) by (bit_vector)
        requires
            s < 32 && s % 2 == 0,
    ;
    assert(((w | (((w & (1u32 << s)) + (1u32 << s)) as u32)) >> s) & 3 >= 2 <==> (w >> s) & 3
        >= 1) by (bit_vector)
        requires
            s < 32 && s % 2 == 0,
    ;
}

/// Incrementing one counter leaves every other counter of the word as it was.
pub proof fn lemma_bump_other(w: u32, s: u32, t: u32)
    requires
        valid_offset(s),
        valid_offset(t),
        s != t,
    ensures
        counter(bumped(w, s), t) == counter(w, t),
{
    assert(((w | (((w & (1u32 << s)) + (1u32 << s)) as u32)) >> t) & 3 == (w >> t) & 3)
        by (bit_vector)
        requires
            s < 32 && s % 2 == 0 && t < 32 && t % 2 == 0 && s != t,
    ;
}

/// Each counter of a merged word is non-zero when either side's is, and at
/// least 2 when either side's is, or when both are non-zero.
pub proof fn lemma_merge_counter(a: u32, b: u32, s: u32)
    requires
        valid_offset(s),
    ensures
        counter(merged(a, b), s) >= 1 <==> (counter(a, s) >= 1 || counter(b, s) >= 1),
        counter(merged(a, b), s) >= 2 <==> (counter(a, s) >= 2 || counter(b, s) >= 2 || (
        counter(a, s) >= 1 && counter(b, s) >= 1)),
        level(counter(merged(a, b), s)) == if level(counter(a, s)) + level(counter(b, s)) >= 2 {
            2
        } else {
            level(counter(a, s)) + level(counter(b, s))
        },
{
    assert(((a | b | (((a & 0x5555_5555u32) + (b & 0x5555_5555u32)) as u32)) >> s) & 3 >= 1 <==> (
    (a >> s) & 3 >= 1 || (b >> s) & 3 >= 1)) by (bit_vector)
        requires
            s < 32 && s % 2 == 0,
    ;
    assert(((a | b | (((a & 0x5555_5555u32) + (b & 0x5555_5555u32)) as u32)) >> s) & 3 >= 2 <==> (
    (a >> s) & 3 >= 2 || (b >> s) & 3 >= 2 || ((a >> s) & 3 >= 1 && (b >> s) & 3 >= 1)))
        by (bit_vector)
        requires
            s < 32 && s % 2 == 0,
    ;
}

/// Merging with an empty word changes nothing, and the order of the two
/// words does not matter.
pub proof fn lemma_merge_zero_comm(a: u32, b: u32)
    ensures
        merged(a, 0) == a,
        merged(a, b) == merged(b, a),
{
    assert((a | 0u32 | (((a & 0x5555_5555u32) + (0u32 & 0x5555_5555u32)) as u32)) == a)
        by (bit_vector);
    assert((a | b | (((a & 0x5555_5555u32) + (b & 0x5555_5555u32)) as u32)) == (b | a | (((b
        & 0x5555_5555u32) + (a & 0x5555_5555u32)) as u32))) by (bit_vector);
}

} // verus!
