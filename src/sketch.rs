//! The duplicates sketch: a counting filter of 2-bit saturating counters,
//! addressed through a 128-bit hash of each inserted byte string.

use crate::codec::{
    decode_at, encoding, le_bytes, read_u32_le, read_u64_le, u32_at, words_bytes, write_u32_le,
    write_u64_le, Decoded, SketchError,
};
use crate::counter::{
    bumped, counter, lemma_bump_fits, lemma_merge_fits, merged, valid_offset, LOW_BITS,
};
use metrohash::MetroHash128;
use std::hash::Hasher;
use vstd::prelude::*;

verus! {

/// The mathematical content of a sketch: its probe count and its words.
pub struct SketchModel {
    pub probes: u32,
    pub words: Seq<u32>,
}

/// A fixed-size counting filter that answers whether a byte string was
/// probably inserted at least twice.
#[derive(Debug, Eq)]
pub struct DuplicatesSketch {
    probes: u32,
    words: Vec<u32>,
}

impl PartialEq for DuplicatesSketch {
    fn eq(&self, other: &DuplicatesSketch) -> (r: bool) {
        if self.probes != other.probes || self.words.len() != other.words.len() {
            return false;
        }
        let mut i: usize = 0;
        while i < self.words.len()
            invariant
                self.words@.len() == other.words@.len(),
                i <= self.words@.len(),
                forall|k: int| 0 <= k < i ==> self.words@[k] == other.words@[k],
            decreases self.words@.len() - i,
        {
            if self.words[i] != other.words[i] {
                return false;
            }
            i += 1;
        }
        assert(self.words@ =~= other.words@);
        true
    }
}

impl vstd::std_specs::cmp::PartialEqSpecImpl for DuplicatesSketch {
    open spec fn obeys_eq_spec() -> bool {
        true
    }

    open spec fn eq_spec(&self, other: &DuplicatesSketch) -> bool {
        self@ == other@
    }
}

impl View for DuplicatesSketch {
    type V = SketchModel;

    closed spec fn view(&self) -> SketchModel {
        SketchModel { probes: self.probes, words: self.words@ }
    }
}

/// The MetroHash128 digest (seed 0) of a byte string, as its two 64-bit halves.
pub uninterp spec fn metro_hash128(data: Seq<u8>) -> (u64, u64);

/// Relies on metrohash's `MetroHash128::new` (seed 0), `Hasher::write` and
/// `finish128`: the digest of the bytes, which depends on the bytes alone.
#[verifier::external_body]
fn hash128(buf: &[u8]) -> (r: (u64, u64))
    ensures
        r == metro_hash128(buf@),
{
    let mut hasher = MetroHash128::new();
    hasher.write(buf);
    hasher.finish128()
}

/// The running hash after `n` probes: it starts at `a`, and probe `i` adds
/// `i * b`, all modulo 2^64.
pub open spec fn probe_hash(a: u64, b: u64, n: nat) -> u64
    decreases n,
{
    if n == 0 {
        a
    } else {
        ((probe_hash(a, b, (n - 1) as nat) + ((n - 1) * b) % 0x1_0000_0000_0000_0000)
            % 0x1_0000_0000_0000_0000) as u64
    }
}

/// The word addressed by hash `h` in a sketch of `len` words.
pub open spec fn word_of(h: u64, len: nat) -> int {
    (((h >> 4u64) as usize) & ((len - 1) as usize)) as int
}

/// The counter offset addressed by hash `h`.
pub open spec fn offset_of(h: u64) -> u32 {
    ((h & 15) * 2) as u32
}

/// The `probes` positions (word index, counter offset) that `buf` addresses
/// in a sketch of `len` words.
pub open spec fn positions(buf: Seq<u8>, probes: u32, len: nat) -> Seq<(int, u32)> {
    Seq::new(
        probes as nat,
        |j: int|
            {
                let h = probe_hash(metro_hash128(buf).0, metro_hash128(buf).1, (j + 1) as nat);
                (word_of(h, len), offset_of(h))
            },
    )
}

/// Increments the counter at one position.
pub open spec fn bump_at(ws: Seq<u32>, p: (int, u32)) -> Seq<u32> {
    ws.update(p.0, bumped(ws[p.0], p.1))
}

/// Increments the counters at the positions, in order.
pub open spec fn bump_all(ws: Seq<u32>, ps: Seq<(int, u32)>) -> Seq<u32>
    decreases ps.len(),
{
    if ps.len() == 0 {
        ws
    } else {
        bump_at(bump_all(ws, ps.drop_last()), ps.last())
    }
}

/// The sketch after one insertion of `buf`.
pub open spec fn inserted(m: SketchModel, buf: Seq<u8>) -> SketchModel {
    SketchModel { probes: m.probes, words: bump_all(m.words, positions(buf, m.probes, m.words.len())) }
}

/// Every counter that `buf` addresses holds 2 or more.
pub open spec fn reports_duplicate(m: SketchModel, buf: Seq<u8>) -> bool {
    let ps = positions(buf, m.probes, m.words.len());
    forall|j: int| 0 <= j < ps.len() ==> counter(m.words[ps[j].0], ps[j].1) >= 2
}

/// Two sketches with the same probe count and the same number of words.
pub open spec fn compatible(a: SketchModel, b: SketchModel) -> bool {
    a.probes == b.probes && a.words.len() == b.words.len()
}

/// `a` with every word merged with the word of `b` at the same index.
pub open spec fn merged_model(a: SketchModel, b: SketchModel) -> SketchModel {
    SketchModel {
        probes: a.probes,
        words: Seq::new(a.words.len(), |i: int| merged(a.words[i], b.words[i])),
    }
}

/// `n` is a power of two.
pub open spec fn is_pow2(n: nat) -> bool
    decreases n,
{
    if n <= 1 {
        n == 1
    } else {
        n % 2 == 0 && is_pow2(n / 2)
    }
}

/// The least of `p`, `2p`, `4p`, ... that is at least `n`.
pub open spec fn double_until(n: nat, p: nat) -> nat
    decreases (if p >= n { 0 } else { n - p }),
    when p >= 1
{
    if p >= n {
        p
    } else {
        double_until(n, 2 * p)
    }
}

/// The number of words in a sketch asked for `size` bytes: the least power
/// of two that is at least `size / 4`.
pub open spec fn word_count_for(size: nat) -> nat {
    double_until(size / 4, 1)
}

/// A fresh sketch with `probes` probes and the word count for `size` bytes, all
/// counters zero.
pub open spec fn is_fresh(m: SketchModel, probes: u32, size: nat) -> bool {
    &&& m.probes == probes
    &&& m.words.len() == word_count_for(size)
    &&& forall|i: int| 0 <= i < m.words.len() ==> m.words[i] == 0
}

/// Both parts of a probe position from the running hash.
fn position(h: u64, len: usize) -> (r: (usize, u32))
    requires
        len > 0,
    ensures
        r.0 as int == word_of(h, len as nat),
        r.0 < len,
        r.1 == offset_of(h),
        valid_offset(r.1),
{
    let word_ix = ((h >> 4) as usize) & (len - 1);
    assert(((h >> 4u64) as usize) & ((len - 1) as usize) <= (len - 1) as usize) by (bit_vector);
    assert(h & 15 < 16) by (bit_vector);
    let bit_ix = ((h & 15) as u32) * 2;
    (word_ix, bit_ix)
}

/// Every position lies inside the sketch and addresses one counter.
pub proof fn lemma_positions_in_range(buf: Seq<u8>, probes: u32, len: nat)
    requires
        0 < len <= usize::MAX,
    ensures
        forall|j: int|
            0 <= j < probes ==> 0 <= #[trigger] positions(buf, probes, len)[j].0 < len
                && valid_offset(positions(buf, probes, len)[j].1),
{
    assert forall|j: int| 0 <= j < probes implies 0 <= #[trigger] positions(buf, probes, len)[j].0
        < len && valid_offset(positions(buf, probes, len)[j].1) by {
        let h = probe_hash(metro_hash128(buf).0, metro_hash128(buf).1, (j + 1) as nat);
        let l = (len - 1) as usize;
        assert(((h >> 4u64) as usize) & l <= l) by (bit_vector);
        assert(h & 15 < 16) by (bit_vector);
    }
}

/// One step of the running hash.
fn next_hash(h: u64, i: u32, b: u64) -> (r: u64)
    ensures
        r == ((h + (i * b) % 0x1_0000_0000_0000_0000) % 0x1_0000_0000_0000_0000) as u64,
{
    h.wrapping_add((i as u64).wrapping_mul(b))
}

impl DuplicatesSketch {
    /// A sketch with `probes` probes per element and all counters zero, whose
    /// word count is the least power of two holding `size` bytes rounded down
    /// to whole words (one word at least).
    pub fn new(probes: u32, size: usize) -> (r: DuplicatesSketch)
        requires
            probes >= 1,
        ensures
            is_fresh(r@, probes, size as nat),
    {
        let wanted = size / 4;
        let mut len: usize = 1;
        while len < wanted
            invariant
                1 <= len,
                wanted <= usize::MAX / 4,
                double_until(wanted as nat, len as nat) == double_until(wanted as nat, 1),
            decreases usize::MAX - len,
        {
            len = len * 2;
        }
        DuplicatesSketch { probes, words: vec![0u32; len] }
    }

    /// The number of probes per element.
    pub fn probes(&self) -> (r: u32)
        ensures
            r == self@.probes,
    {
        self.probes
    }

    /// The number of 32-bit words, sixteen counters each.
    pub fn word_count(&self) -> (r: usize)
        ensures
            r == self@.words.len(),
    {
        self.words.len()
    }

    /// Whether `other` has the same probe count and word count.
    pub fn is_compatible(&self, other: &DuplicatesSketch) -> (r: bool)
        ensures
            r == compatible(self@, other@),
    {
        self.probes == other.probes && self.words.len() == other.words.len()
    }

    /// Adds `other` into this sketch, counter by counter.
    pub fn merge(&mut self, other: &DuplicatesSketch)
        requires
            compatible(old(self)@, other@),
        ensures
            final(self)@ == merged_model(old(self)@, other@),
    {
        let len = self.words.len();
        let mut i: usize = 0;
        while i < len
            invariant
                len == self.words.len(),
                compatible(old(self)@, other@),
                self.probes == old(self).probes,
                self.words@.len() == old(self).words@.len(),
                0 <= i <= len,
                forall|k: int| 0 <= k < i ==> self.words@[k] == merged(old(self).words@[k], other.words@[k]),
                forall|k: int| i <= k < len ==> self.words@[k] == old(self).words@[k],
            decreases len - i,
        {
            let a = self.words[i];
            let b = other.words[i];
            proof {
                lemma_merge_fits(a, b);
            }
            self.words.set(i, a | b | ((a & LOW_BITS) + (b & LOW_BITS)));
            i += 1;
        }
        proof {
            assert(self.words@ =~= merged_model(old(self)@, other@).words);
        }
    }

    /// Increments each counter that `buf` addresses.
    pub fn insert(&mut self, buf: &[u8])
        requires
            old(self)@.words.len() > 0,
        ensures
            final(self)@ == inserted(old(self)@, buf@),
    {
        let (a, b) = hash128(buf);
        let len = self.words.len();
        let ghost ps = positions(buf@, self.probes, len as nat);
        let mut h: u64 = a;
        let mut j: u32 = 0;
        while j < self.probes
            invariant
                self.probes == old(self).probes,
                len == self.words.len(),
                len == old(self).words.len(),
                len > 0,
                ps == positions(buf@, self.probes, len as nat),
                (a, b) == metro_hash128(buf@),
                j <= self.probes,
                h == probe_hash(a, b, j as nat),
                self.words@ == bump_all(old(self).words@, ps.take(j as int)),
            decreases self.probes - j,
        {
            h = next_hash(h, j, b);
            let (w, s) = position(h, len);
            let word = self.words[w];
            proof {
                lemma_bump_fits(word, s);
                assert(ps.take(j + 1).drop_last() =~= ps.take(j as int));
            }
            self.words.set(w, word | ((word & (1u32 << s)) + (1u32 << s)));
            j += 1;
        }
        proof {
            assert(ps.take(self.probes as int) =~= ps);
        }
    }

    /// Whether every counter that `buf` addresses holds 2 or more.
    pub fn has_duplicate(&self, buf: &[u8]) -> (r: bool)
        requires
            self@.words.len() > 0,
        ensures
            r == reports_duplicate(self@, buf@),
    {
        let (a, b) = hash128(buf);
        let len = self.words.len();
        let ghost ps = positions(buf@, self.probes, len as nat);
        let mut h: u64 = a;
        let mut j: u32 = 0;
        while j < self.probes
            invariant
                len == self.words.len(),
                len > 0,
                ps == positions(buf@, self.probes, len as nat),
                (a, b) == metro_hash128(buf@),
                j <= self.probes,
                h == probe_hash(a, b, j as nat),
                forall|k: int| 0 <= k < j ==> counter(self.words@[ps[k].0], ps[k].1) >= 2,
            decreases self.probes - j,
        {
            h = next_hash(h, j, b);
            let (w, s) = position(h, len);
            if (self.words[w] >> s) & 3 <= 1 {
                assert(ps[j as int] == (w as int, s));
                assert(self@.words == self.words@ && self@.probes == self.probes);
                assert(counter(self.words@[ps[j as int].0], ps[j as int].1) < 2);
                return false;
            }
            j += 1;
        }
        true
    }

    /// Appends the record of this sketch to `out`.
    pub fn serialize(&self, out: &mut Vec<u8>)
        ensures
            final(out)@ == old(out)@ + encoding(self@),
    {
        write_u32_le(out, self.probes);
        write_u64_le(out, self.words.len() as u64);
        let ghost head = old(out)@ + le_bytes(self.probes as nat, 4) + le_bytes(
            self.words@.len(),
            8,
        );
        assert(out@ == head);
        let mut i: usize = 0;
        while i < self.words.len()
            invariant
                i <= self.words@.len(),
                out@ == head + words_bytes(self.words@.take(i as int)),
            decreases self.words@.len() - i,
        {
            write_u32_le(out, self.words[i]);
            proof {
                let ws = self.words@.take(i + 1);
                assert(ws.drop_last() =~= self.words@.take(i as int));
                assert(words_bytes(ws) == words_bytes(ws.drop_last()) + le_bytes(ws.last() as nat, 4));
                assert(out@ =~= head + words_bytes(ws));
            }
            i += 1;
        }
        proof {
            assert(self.words@.take(i as int) =~= self.words@);
            assert(out@ =~= old(out)@ + encoding(self@));
        }
    }

    /// Reads the record that starts at `*pos` in `input` and moves `*pos`
    /// past it. No byte left gives `Ok(None)`; a partial record gives
    /// `Truncated`, and `*pos` stays where it was.
    pub fn deserialize(input: &[u8], pos: &mut usize) -> (r: Result<
        Option<DuplicatesSketch>,
        SketchError,
    >)
        requires
            *old(pos) <= input@.len(),
        ensures
            match decode_at(input@, *old(pos) as int) {
                Decoded::End => r == Ok::<Option<DuplicatesSketch>, SketchError>(None)
                    && *final(pos) == *old(pos),
                Decoded::Truncated => r == Err::<Option<DuplicatesSketch>, SketchError>(
                    SketchError::Truncated,
                ) && *final(pos) == *old(pos),
                Decoded::Record(m, n) => r is Ok && r->Ok_0 is Some && r->Ok_0->Some_0@ == m
                    && *final(pos) == *old(pos) + n,
            },
    {
        let start = *pos;
        let total = input.len();
        let remaining = total - start;
        if remaining == 0 {
            return Ok(None);
        }
        if remaining < 12 {
            return Err(SketchError::Truncated);
        }
        let probes = read_u32_le(input, start);
        let count = read_u64_le(input, start + 4);
        let body = remaining - 12;
        if ((body / 4) as u64) < count {
            return Err(SketchError::Truncated);
        }
        let count = count as usize;
        let first = start + 12;
        let mut words: Vec<u32> = Vec::new();
        let mut i: usize = 0;
        while i < count
            invariant
                i <= count,
                first == start + 12,
                first + 4 * count <= total,
                total == input@.len(),
                words@.len() == i,
                forall|k: int| 0 <= k < i ==> words@[k] == u32_at(input@, first + 4 * k),
            decreases count - i,
        {
            let w = read_u32_le(input, first + 4 * i);
            words.push(w);
            i += 1;
        }
        *pos = first + 4 * count;
        let sketch = DuplicatesSketch { probes, words };
        proof {
            let m = SketchModel {
                probes: u32_at(input@, start as int),
                words: Seq::new(count as nat, |k: int| u32_at(input@, start + 12 + 4 * k)),
            };
            assert(sketch@.words =~= m.words);
        }
        Ok(Some(sketch))
    }
}

} // verus!
