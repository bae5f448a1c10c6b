//! The binary record of a sketch: probe count (4 bytes), word count
//! (8 bytes), then each word (4 bytes), all little-endian. Records may follow
//! one another in one byte stream.

use crate::sketch::{compatible, merged_model, DuplicatesSketch, SketchModel};
use byteorder::{ByteOrder, LittleEndian};
use vstd::prelude::*;

verus! {

/// Why reading or combining sketches failed.
#[derive(Debug, Clone, Copy, PartialEq, Eq, Structural)]
pub enum SketchError {
    /// The stream ends inside a record.
    Truncated,
    /// Two records differ in probe count or word count.
    Incompatible,
    /// The stream holds no record at all.
    NoSketches,
}

/// 256 to the power `k`.
pub open spec fn pow256(k: nat) -> nat
    decreases k,
{
    if k == 0 {
        1
    } else {
        256 * pow256((k - 1) as nat)
    }
}

/// The `k` low bytes of `n`, least significant first.
pub open spec fn le_bytes(n: nat, k: nat) -> Seq<u8>
    decreases k,
{
    if k == 0 {
        seq![]
    } else {
        seq![(n % 256) as u8] + le_bytes(n / 256, (k - 1) as nat)
    }
}

/// The number whose bytes, least significant first, are `b`.
pub open spec fn le_value(b: Seq<u8>) -> nat
    decreases b.len(),
{
    if b.len() == 0 {
        0
    } else {
        b[0] as nat + 256 * le_value(b.skip(1))
    }
}

/// The words one after another, four bytes each.
pub open spec fn words_bytes(ws: Seq<u32>) -> Seq<u8>
    decreases ws.len(),
{
    if ws.len() == 0 {
        seq![]
    } else {
        words_bytes(ws.drop_last()) + le_bytes(ws.last() as nat, 4)
    }
}

/// The record of a sketch.
pub open spec fn encoding(m: SketchModel) -> Seq<u8> {
    le_bytes(m.probes as nat, 4) + le_bytes(m.words.len(), 8) + words_bytes(m.words)
}

/// What reading one record from a position of a stream finds.
pub enum Decoded {
    /// No byte is left.
    End,
    /// Some bytes are left, but not a whole record.
    Truncated,
    /// A whole record, and its length in bytes.
    Record(SketchModel, nat),
}

/// The 4-byte little-endian value at `at`.
pub open spec fn u32_at(b: Seq<u8>, at: int) -> u32 {
    le_value(b.subrange(at, at + 4)) as u32
}

/// The record that starts at `at` in `b`.
pub open spec fn decode_at(b: Seq<u8>, at: int) -> Decoded {
    if b.len() - at == 0 {
        Decoded::End
    } else if b.len() - at < 12 {
        Decoded::Truncated
    } else {
        let count = le_value(b.subrange(at + 4, at + 12));
        if b.len() - at - 12 < 4 * count {
            Decoded::Truncated
        } else {
            Decoded::Record(
                SketchModel {
                    probes: u32_at(b, at),
                    words: Seq::new(count, |i: int| u32_at(b, at + 12 + 4 * i)),
                },
                12 + 4 * count,
            )
        }
    }
}

/// Relies on byteorder's `LittleEndian::read_u32`: the first four bytes of
/// the slice it is given, least significant first.
#[verifier::external_body]
pub(crate) fn read_u32_le(b: &[u8], at: usize) -> (r: u32)
    requires
        at + 4 <= b@.len(),
    ensures
        r as nat == le_value(b@.subrange(at as int, at + 4)),
{
    LittleEndian::read_u32(&b[at..])
}

/// Relies on byteorder's `LittleEndian::read_u64`: the first eight bytes of
/// the slice it is given, least significant first.
#[verifier::external_body]
pub(crate) fn read_u64_le(b: &[u8], at: usize) -> (r: u64)
    requires
        at + 8 <= b@.len(),
    ensures
        r as nat == le_value(b@.subrange(at as int, at + 8)),
{
    LittleEndian::read_u64(&b[at..])
}

/// Relies on byteorder's `LittleEndian::write_u32`: the four bytes of `n`,
/// least significant first, which are then appended.
#[verifier::external_body]
pub(crate) fn write_u32_le(out: &mut Vec<u8>, n: u32)
    ensures
        final(out)@ == old(out)@ + le_bytes(n as nat, 4),
{
    let mut bytes = [0u8; 4];
    LittleEndian::write_u32(&mut bytes, n);
    out.extend_from_slice(&bytes);
}

/// Relies on byteorder's `LittleEndian::write_u64`: the eight bytes of `n`,
/// least significant first, which are then appended.
#[verifier::external_body]
pub(crate) fn write_u64_le(out: &mut Vec<u8>, n: u64)
    ensures
        final(out)@ == old(out)@ + le_bytes(n as nat, 8),
{
    let mut bytes = [0u8; 8];
    LittleEndian::write_u64(&mut bytes, n);
    out.extend_from_slice(&bytes);
}

/// The result of reading the records from `at` on and merging them into
/// `acc`, stopping at the first truncated or incompatible record.
pub open spec fn combined(b: Seq<u8>, at: int, acc: Option<SketchModel>) -> Result<
    SketchModel,
    SketchError,
>
    decreases b.len() - at,
{
    if at < 0 || at > b.len() {
        Err(SketchError::Truncated)
    } else {
        match decode_at(b, at) {
            Decoded::End => match acc {
                Some(m) => Ok(m),
                None => Err(SketchError::NoSketches),
            },
            Decoded::Truncated => Err(SketchError::Truncated),
            Decoded::Record(m, n) => match acc {
                None => combined(b, at + n, Some(m)),
                Some(a) => if compatible(a, m) {
                    combined(b, at + n, Some(merged_model(a, m)))
                } else {
                    Err(SketchError::Incompatible)
                },
            },
        }
    }
}

/// The model of an optional sketch.
pub open spec fn model_of(s: Option<DuplicatesSketch>) -> Option<SketchModel> {
    match s {
        Some(t) => Some(t@),
        None => None,
    }
}

/// Reads every record of `input` and merges them into the first one.
pub fn combine_sketches(input: &[u8]) -> (r: Result<DuplicatesSketch, SketchError>)
    ensures
        match r {
            Ok(s) => combined(input@, 0, None) == Ok::<SketchModel, SketchError>(s@),
            Err(e) => combined(input@, 0, None) == Err::<SketchModel, SketchError>(e),
        },
{
    let mut acc: Option<DuplicatesSketch> = None;
    let mut pos: usize = 0;
    loop
        invariant
            pos <= input@.len(),
            combined(input@, 0, None) == combined(input@, pos as int, model_of(acc)),
        decreases input@.len() - pos,
    {
        let old_pos = pos;
        match DuplicatesSketch::deserialize(input, &mut pos) {
            Err(e) => {
                return Err(e);
            },
            Ok(None) => {
                return match acc {
                    Some(s) => Ok(s),
                    None => Err(SketchError::NoSketches),
                };
            },
            Ok(Some(next)) => {
                match acc {
                    None => {
                        acc = Some(next);
                    },
                    Some(mut s) => {
                        if !s.is_compatible(&next) {
                            return Err(SketchError::Incompatible);
                        }
                        s.merge(&next);
                        acc = Some(s);
                    },
                }
            },
        }
        assert(pos > old_pos);
    }
}

} // verus!
