//! Properties of the sketch that hold for all inputs, stated over the
//! models that the operations' contracts use.

use crate::codec::{decode_at, encoding, le_bytes, le_value, pow256, u32_at, words_bytes, Decoded};
use crate::counter::{
    counter, lemma_bump_other, lemma_bump_same, lemma_merge_counter, lemma_merge_zero_comm, level,
    valid_offset,
};
use crate::sketch::{
    bump_all, compatible, double_until, inserted, is_pow2, lemma_positions_in_range,
    is_fresh, merged_model, positions, reports_duplicate, word_count_for, SketchModel,
};
use vstd::prelude::*;

verus! {

/// Merging a sketch with a compatible sketch whose words are all zero leaves
/// it unchanged.
pub proof fn lemma_merge_zero_identity(m: SketchModel, z: SketchModel)
    requires
        compatible(m, z),
        forall|i: int| 0 <= i < z.words.len() ==> z.words[i] == 0,
    ensures
        merged_model(m, z) == m,
{
    assert forall|i: int| 0 <= i < m.words.len() implies merged_model(m, z).words[i]
        == m.words[i] by {
        lemma_merge_zero_comm(m.words[i], 0);
    }
    assert(merged_model(m, z).words =~= m.words);
}

/// Merging is commutative: both orders give the same sketch, which therefore
/// answers every query alike.
pub proof fn lemma_merge_commutative(a: SketchModel, b: SketchModel, buf: Seq<u8>)
    requires
        compatible(a, b),
    ensures
        merged_model(a, b) == merged_model(b, a),
        reports_duplicate(merged_model(a, b), buf) == reports_duplicate(merged_model(b, a), buf),
{
    assert forall|i: int| 0 <= i < a.words.len() implies merged_model(a, b).words[i]
        == merged_model(b, a).words[i] by {
        lemma_merge_zero_comm(a.words[i], b.words[i]);
    }
    assert(merged_model(a, b).words =~= merged_model(b, a).words);
}

/// The bytes of a number below `256^k`, read back, give the number.
pub proof fn lemma_le_round_trip(n: nat, k: nat)
    requires
        n < pow256(k),
    ensures
        le_bytes(n, k).len() == k,
        le_value(le_bytes(n, k)) == n,
    decreases k,
{
    if k == 0 {
        assert(n == 0);
    } else {
        let p = pow256((k - 1) as nat);
        assert(n / 256 < p) by (nonlinear_arith)
            requires
                n < 256 * p,
        ;
        lemma_le_round_trip(n / 256, (k - 1) as nat);
        let b = le_bytes(n, k);
        assert(b.skip(1) =~= le_bytes(n / 256, (k - 1) as nat));
        assert(n == n % 256 + 256 * (n / 256));
    }
}

/// The four bytes of word `i` sit at offset `4 i` of the words' bytes.
pub proof fn lemma_words_bytes(ws: Seq<u32>)
    ensures
        words_bytes(ws).len() == 4 * ws.len(),
        forall|i: int|
            0 <= i < ws.len() ==> #[trigger] words_bytes(ws).subrange(4 * i, 4 * i + 4)
                == le_bytes(ws[i] as nat, 4),
    decreases ws.len(),
{
    if ws.len() > 0 {
        let init = ws.drop_last();
        lemma_words_bytes(init);
        lemma_pow256_values();
        lemma_le_round_trip(ws.last() as nat, 4);
        let b = words_bytes(ws);
        assert forall|i: int| 0 <= i < ws.len() implies #[trigger] b.subrange(4 * i, 4 * i + 4)
            == le_bytes(ws[i] as nat, 4) by {
            if i < init.len() {
                assert(b.subrange(4 * i, 4 * i + 4) =~= words_bytes(init).subrange(4 * i, 4 * i + 4));
            } else {
                assert(b.subrange(4 * i, 4 * i + 4) =~= le_bytes(ws.last() as nat, 4));
            }
        }
    }
}

/// The powers of 256 that bound 32-bit and 64-bit numbers.
pub proof fn lemma_pow256_values()
    ensures
        pow256(4) == 0x1_0000_0000,
        pow256(8) == 0x1_0000_0000_0000_0000,
{
    reveal_with_fuel(pow256, 9);
}

/// Reading back the record of a sketch, whatever follows it in the stream,
/// gives that sketch and the record's length.
pub proof fn lemma_round_trip(m: SketchModel, rest: Seq<u8>)
    requires
        m.words.len() <= usize::MAX,
    ensures
        encoding(m).len() == 12 + 4 * m.words.len(),
        decode_at(encoding(m) + rest, 0) == Decoded::Record(m, 12 + 4 * m.words.len()),
{
    lemma_pow256_values();
    let len = m.words.len();
    lemma_le_round_trip(m.probes as nat, 4);
    lemma_le_round_trip(len, 8);
    lemma_words_bytes(m.words);
    let b = encoding(m) + rest;
    assert(b.subrange(0, 4) =~= le_bytes(m.probes as nat, 4));
    assert(b.subrange(4, 12) =~= le_bytes(len, 8));
    let words = Seq::new(len, |i: int| u32_at(b, 12 + 4 * i));
    assert forall|i: int| 0 <= i < len implies words[i] == m.words[i] by {
        assert(b.subrange(12 + 4 * i, 12 + 4 * i + 4) =~= words_bytes(m.words).subrange(
            4 * i,
            4 * i + 4,
        ));
        lemma_le_round_trip(m.words[i] as nat, 4);
    }
    assert(words =~= m.words);
}

/// What `double_until` gives: a power of two, at least `n` and `p`, and the
/// least such one above `p`.
pub proof fn lemma_double_until(n: nat, p: nat)
    requires
        p >= 1,
        is_pow2(p),
    ensures
        is_pow2(double_until(n, p)),
        double_until(n, p) >= n,
        double_until(n, p) >= p,
        double_until(n, p) == p || double_until(n, p) / 2 < n,
    decreases (if p >= n { 0 } else { n - p }),
{
    if p < n {
        assert(is_pow2(2 * p));
        lemma_double_until(n, 2 * p);
    }
}

/// The word count of a sketch asked for `size` bytes is a power of two, at
/// least 1 and at least `size / 4`, and the least such one.
pub proof fn lemma_word_count_shape(size: nat)
    ensures
        is_pow2(word_count_for(size)),
        word_count_for(size) >= 1,
        word_count_for(size) >= size / 4,
        word_count_for(size) == 1 || word_count_for(size) / 2 < size / 4,
{
    lemma_double_until(size / 4, 1);
}

/// The words hold at least `size` bytes when `size` is at least 4, except
/// where `size` is not a multiple of 4 and `size / 4` is already a power of
/// two (the words then hold `size` rounded down to a multiple of 4).
pub proof fn lemma_word_count_covers_size(size: nat)
    requires
        size >= 4,
        !(size % 4 != 0 && is_pow2(size / 4)),
    ensures
        4 * word_count_for(size) >= size,
{
    lemma_word_count_shape(size);
    if size % 4 != 0 {
        assert(word_count_for(size) != size / 4);
    }
}

/// A sketch with all counters zero.
pub open spec fn empty_model(probes: u32, len: nat) -> SketchModel {
    SketchModel { probes, words: Seq::new(len, |i: int| 0u32) }
}

/// The sketch after inserting the items in order.
pub open spec fn inserted_all(m: SketchModel, items: Seq<Seq<u8>>) -> SketchModel
    decreases items.len(),
{
    if items.len() == 0 {
        m
    } else {
        inserted(inserted_all(m, items.drop_last()), items.last())
    }
}

/// The positions that inserting the items in order increments.
pub open spec fn positions_all(items: Seq<Seq<u8>>, probes: u32, len: nat) -> Seq<(int, u32)>
    decreases items.len(),
{
    if items.len() == 0 {
        seq![]
    } else {
        positions_all(items.drop_last(), probes, len) + positions(items.last(), probes, len)
    }
}

/// How many times `p` occurs in `ps`.
pub open spec fn hits(ps: Seq<(int, u32)>, p: (int, u32)) -> nat
    decreases ps.len(),
{
    if ps.len() == 0 {
        0
    } else {
        hits(ps.drop_last(), p) + if ps.last() == p {
            1nat
        } else {
            0nat
        }
    }
}

/// `n`, but at most 2.
pub open spec fn at_most_two(n: nat) -> nat {
    if n >= 2 {
        2
    } else {
        n
    }
}

/// The level of the counter at position `p`.
pub open spec fn level_at(ws: Seq<u32>, p: (int, u32)) -> nat {
    level(counter(ws[p.0], p.1))
}

/// `p` addresses a counter of a sketch of `len` words.
pub open spec fn valid_position(p: (int, u32), len: nat) -> bool {
    0 <= p.0 < len && valid_offset(p.1)
}

/// The items of all parts, part after part.
pub open spec fn flatten(parts: Seq<Seq<Seq<u8>>>) -> Seq<Seq<u8>>
    decreases parts.len(),
{
    if parts.len() == 0 {
        seq![]
    } else {
        flatten(parts.drop_last()) + parts.last()
    }
}

/// One sketch built from each part, all merged in order into an empty one.
pub open spec fn merged_parts(probes: u32, len: nat, parts: Seq<Seq<Seq<u8>>>) -> SketchModel
    decreases parts.len(),
{
    if parts.len() == 0 {
        empty_model(probes, len)
    } else {
        merged_model(
            merged_parts(probes, len, parts.drop_last()),
            inserted_all(empty_model(probes, len), parts.last()),
        )
    }
}

/// Occurrences add up over a concatenation.
pub proof fn lemma_hits_concat(a: Seq<(int, u32)>, b: Seq<(int, u32)>, p: (int, u32))
    ensures
        hits(a + b, p) == hits(a, p) + hits(b, p),
    decreases b.len(),
{
    if b.len() > 0 {
        assert((a + b).drop_last() =~= a + b.drop_last());
        lemma_hits_concat(a, b.drop_last(), p);
    } else {
        assert(a + b =~= a);
    }
}

/// An element of a sequence occurs in it.
pub proof fn lemma_hits_member(ps: Seq<(int, u32)>, k: int)
    requires
        0 <= k < ps.len(),
    ensures
        hits(ps, ps[k]) >= 1,
    decreases ps.len(),
{
    if k < ps.len() - 1 {
        lemma_hits_member(ps.drop_last(), k);
    }
}

/// The positions of a concatenation of item lists are concatenated.
pub proof fn lemma_positions_all_concat(a: Seq<Seq<u8>>, b: Seq<Seq<u8>>, probes: u32, len: nat)
    ensures
        positions_all(a + b, probes, len) == positions_all(a, probes, len) + positions_all(
            b,
            probes,
            len,
        ),
    decreases b.len(),
{
    if b.len() > 0 {
        assert((a + b).drop_last() =~= a + b.drop_last());
        lemma_positions_all_concat(a, b.drop_last(), probes, len);
        assert(positions_all(a + b, probes, len) =~= positions_all(a, probes, len)
            + positions_all(b, probes, len));
    } else {
        assert(a + b =~= a);
        assert(positions_all(a, probes, len) + positions_all(b, probes, len) =~= positions_all(
            a,
            probes,
            len,
        ));
    }
}

/// Every position that inserting the items increments is a valid one.
pub proof fn lemma_positions_all_valid(items: Seq<Seq<u8>>, probes: u32, len: nat)
    requires
        0 < len <= usize::MAX,
    ensures
        forall|k: int|
            0 <= k < positions_all(items, probes, len).len() ==> valid_position(
                #[trigger] positions_all(items, probes, len)[k],
                len,
            ),
    decreases items.len(),
{
    if items.len() > 0 {
        let a = positions_all(items.drop_last(), probes, len);
        let b = positions(items.last(), probes, len);
        lemma_positions_all_valid(items.drop_last(), probes, len);
        lemma_positions_in_range(items.last(), probes, len);
        assert forall|k: int| 0 <= k < (a + b).len() implies valid_position(
            #[trigger] (a + b)[k],
            len,
        ) by {
            if k < a.len() {
                assert((a + b)[k] == a[k]);
            } else {
                assert((a + b)[k] == b[k - a.len()]);
            }
        }
    }
}

/// Incrementing the counters at valid positions raises each counter's level
/// by the number of times it is addressed, up to 2, and keeps the length.
pub proof fn lemma_bump_all_levels(ws: Seq<u32>, ps: Seq<(int, u32)>, p: (int, u32))
    requires
        valid_position(p, ws.len()),
        forall|k: int| 0 <= k < ps.len() ==> valid_position(#[trigger] ps[k], ws.len()),
    ensures
        bump_all(ws, ps).len() == ws.len(),
        level_at(bump_all(ws, ps), p) == at_most_two(level_at(ws, p) + hits(ps, p)),
    decreases ps.len(),
{
    if ps.len() > 0 {
        let init = ps.drop_last();
        let q = ps.last();
        assert forall|k: int| 0 <= k < init.len() implies valid_position(
            #[trigger] init[k],
            ws.len(),
        ) by {
            assert(init[k] == ps[k]);
        }
        lemma_bump_all_levels(ws, init, p);
        let before = bump_all(ws, init);
        assert(valid_position(ps[ps.len() - 1], ws.len()));
        if q == p {
            lemma_bump_same(before[p.0], p.1);
        } else if q.0 == p.0 {
            lemma_bump_other(before[p.0], q.1, p.1);
        }
    }
}

/// Incrementing in two runs is incrementing along both runs at once.
pub proof fn lemma_bump_all_concat(ws: Seq<u32>, a: Seq<(int, u32)>, b: Seq<(int, u32)>)
    ensures
        bump_all(bump_all(ws, a), b) == bump_all(ws, a + b),
    decreases b.len(),
{
    if b.len() > 0 {
        assert((a + b).drop_last() =~= a + b.drop_last());
        lemma_bump_all_concat(ws, a, b.drop_last());
    } else {
        assert(a + b =~= a);
    }
}

/// Inserting the items in order increments the counters at all their
/// positions in order.
pub proof fn lemma_inserted_all(m: SketchModel, items: Seq<Seq<u8>>)
    requires
        0 < m.words.len() <= usize::MAX,
    ensures
        inserted_all(m, items).probes == m.probes,
        inserted_all(m, items).words == bump_all(
            m.words,
            positions_all(items, m.probes, m.words.len()),
        ),
    decreases items.len(),
{
    if items.len() > 0 {
        lemma_inserted_all(m, items.drop_last());
        let len = m.words.len();
        let init = positions_all(items.drop_last(), m.probes, len);
        lemma_bump_all_concat(m.words, init, positions(items.last(), m.probes, len));
        lemma_positions_all_valid(items.drop_last(), m.probes, len);
        lemma_bump_all_len(m.words, init);
    }
}

/// Incrementing at valid positions keeps the number of words.
pub proof fn lemma_bump_all_len(ws: Seq<u32>, ps: Seq<(int, u32)>)
    requires
        forall|k: int| 0 <= k < ps.len() ==> valid_position(#[trigger] ps[k], ws.len()),
    ensures
        bump_all(ws, ps).len() == ws.len(),
    decreases ps.len(),
{
    if ps.len() > 0 {
        assert forall|k: int| 0 <= k < ps.drop_last().len() implies valid_position(
            #[trigger] ps.drop_last()[k],
            ws.len(),
        ) by {
            assert(ps.drop_last()[k] == ps[k]);
        }
        lemma_bump_all_len(ws, ps.drop_last());
        assert(valid_position(ps[ps.len() - 1], ws.len()));
    }
}

/// After inserting the items into an empty sketch, each counter's level is
/// the number of times the insertions addressed it, up to 2: a counter holds
/// 2 or more exactly when it was addressed at least twice.
pub proof fn lemma_counter_levels(probes: u32, len: nat, items: Seq<Seq<u8>>, p: (int, u32))
    requires
        0 < len <= usize::MAX,
        valid_position(p, len),
    ensures
        inserted_all(empty_model(probes, len), items).words.len() == len,
        level_at(inserted_all(empty_model(probes, len), items).words, p) == at_most_two(
            hits(positions_all(items, probes, len), p),
        ),
        counter(inserted_all(empty_model(probes, len), items).words[p.0], p.1) >= 2 <==> hits(
            positions_all(items, probes, len),
            p,
        ) >= 2,
{
    let m = empty_model(probes, len);
    lemma_inserted_all(m, items);
    lemma_positions_all_valid(items, probes, len);
    lemma_bump_all_levels(m.words, positions_all(items, probes, len), p);
    let s = p.1;
    assert((0u32 >> s) & 3 == 0) by (bit_vector);
    assert(m.words[p.0] == 0u32);
}

/// No false negatives: after inserting the items into an empty sketch, an
/// item that occurs at least twice among them is reported as a duplicate.
pub proof fn lemma_no_false_negatives(
    probes: u32,
    len: nat,
    items: Seq<Seq<u8>>,
    i: int,
    j: int,
)
    requires
        0 < len <= usize::MAX,
        0 <= i < j < items.len(),
        items[i] == items[j],
    ensures
        reports_duplicate(inserted_all(empty_model(probes, len), items), items[i]),
{
    let x = items[i];
    let a = items.take(i);
    let mid = items.subrange(i + 1, j);
    let rest = items.skip(j + 1);
    assert(items =~= a + seq![x] + mid + seq![x] + rest);
    let pa = positions_all(a, probes, len);
    let pm = positions_all(mid, probes, len);
    let pr = positions_all(rest, probes, len);
    let px = positions(x, probes, len);
    let one = seq![x];
    assert(one.drop_last() =~= Seq::<Seq<u8>>::empty());
    assert(one.last() == x);
    assert(positions_all(one.drop_last(), probes, len) == Seq::<(int, u32)>::empty());
    assert(positions_all(one, probes, len) =~= px);
    lemma_positions_all_concat(a, seq![x], probes, len);
    lemma_positions_all_concat(a + seq![x], mid, probes, len);
    lemma_positions_all_concat(a + seq![x] + mid, seq![x], probes, len);
    lemma_positions_all_concat(a + seq![x] + mid + seq![x], rest, probes, len);
    let all = positions_all(items, probes, len);
    assert(all == pa + px + pm + px + pr);
    let m = empty_model(probes, len);
    lemma_inserted_all(m, items);
    let ws = inserted_all(m, items).words;
    lemma_counter_levels(probes, len, items, (0, 0));
    lemma_positions_in_range(x, probes, len);
    assert forall|k: int| 0 <= k < px.len() implies counter(ws[px[k].0], px[k].1) >= 2 by {
        let q = px[k];
        lemma_hits_member(px, k);
        lemma_hits_concat(pa, px, q);
        lemma_hits_concat(pa + px, pm, q);
        lemma_hits_concat(pa + px + pm, px, q);
        lemma_hits_concat(pa + px + pm + px, pr, q);
        lemma_counter_levels(probes, len, items, q);
    }
}

/// The level of each counter of merged part sketches is the number of times
/// the items of all parts address it, up to 2.
pub proof fn lemma_merged_parts_levels(
    probes: u32,
    len: nat,
    parts: Seq<Seq<Seq<u8>>>,
    p: (int, u32),
)
    requires
        0 < len <= usize::MAX,
        valid_position(p, len),
    ensures
        merged_parts(probes, len, parts).probes == probes,
        merged_parts(probes, len, parts).words.len() == len,
        level_at(merged_parts(probes, len, parts).words, p) == at_most_two(
            hits(positions_all(flatten(parts), probes, len), p),
        ),
    decreases parts.len(),
{
    if parts.len() == 0 {
        let s = p.1;
        assert((0u32 >> s) & 3 == 0) by (bit_vector);
        assert(empty_model(probes, len).words[p.0] == 0u32);
    } else {
        let init = parts.drop_last();
        let last = parts.last();
        lemma_merged_parts_levels(probes, len, init, p);
        lemma_counter_levels(probes, len, last, p);
        lemma_inserted_all(empty_model(probes, len), last);
        let a = merged_parts(probes, len, init);
        let b = inserted_all(empty_model(probes, len), last);
        lemma_merge_counter(a.words[p.0], b.words[p.0], p.1);
        lemma_positions_all_concat(flatten(init), last, probes, len);
        lemma_hits_concat(
            positions_all(flatten(init), probes, len),
            positions_all(last, probes, len),
            p,
        );
    }
}

/// Building one sketch per part and merging them all into an empty sketch
/// gives, counter by counter, the levels of one sketch built from the items
/// of all parts; so both answer every query alike.
pub proof fn lemma_merge_equivalence(
    probes: u32,
    len: nat,
    parts: Seq<Seq<Seq<u8>>>,
    buf: Seq<u8>,
)
    requires
        0 < len <= usize::MAX,
    ensures
        compatible(
            merged_parts(probes, len, parts),
            inserted_all(empty_model(probes, len), flatten(parts)),
        ),
        forall|p: (int, u32)|
            valid_position(p, len) ==> level_at(merged_parts(probes, len, parts).words, p)
                == level_at(inserted_all(empty_model(probes, len), flatten(parts)).words, p),
        reports_duplicate(merged_parts(probes, len, parts), buf) == reports_duplicate(
            inserted_all(empty_model(probes, len), flatten(parts)),
            buf,
        ),
{
    let merged = merged_parts(probes, len, parts);
    let whole = inserted_all(empty_model(probes, len), flatten(parts));
    lemma_inserted_all(empty_model(probes, len), flatten(parts));
    lemma_merged_parts_levels(probes, len, parts, (0, 0));
    lemma_counter_levels(probes, len, flatten(parts), (0, 0));
    assert forall|p: (int, u32)| valid_position(p, len) implies level_at(merged.words, p)
        == level_at(whole.words, p) by {
        lemma_merged_parts_levels(probes, len, parts, p);
        lemma_counter_levels(probes, len, flatten(parts), p);
    }
    let ps = positions(buf, probes, len);
    lemma_positions_in_range(buf, probes, len);
    assert forall|k: int| 0 <= k < ps.len() implies (counter(merged.words[ps[k].0], ps[k].1) >= 2
        <==> counter(whole.words[ps[k].0], ps[k].1) >= 2) by {
        assert(valid_position(ps[k], len));
        assert(level_at(merged.words, ps[k]) == level_at(whole.words, ps[k]));
    }
}

/// Building is deterministic: two sketches made with the same probe count and
/// size, into which the same items are inserted in the same order, are equal.
pub proof fn lemma_build_deterministic(
    probes: u32,
    size: nat,
    a: SketchModel,
    b: SketchModel,
    items: Seq<Seq<u8>>,
)
    requires
        is_fresh(a, probes, size),
        is_fresh(b, probes, size),
    ensures
        inserted_all(a, items) == inserted_all(b, items),
{
    assert(a.words =~= b.words);
    assert(a == b);
}

} // verus!
