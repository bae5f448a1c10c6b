use sketch_duplicates::{combine_sketches, DuplicatesSketch, SketchError};

const STRING: &[u8] = b"asdf";

fn build(probes: u32, size: usize, items: &[&[u8]]) -> DuplicatesSketch {
    let mut sketch = DuplicatesSketch::new(probes, size);
    for item in items {
        sketch.insert(item);
    }
    sketch
}

fn bytes_of(sketch: &DuplicatesSketch) -> Vec<u8> {
    let mut out = Vec::new();
    sketch.serialize(&mut out);
    out
}

fn read_one(bytes: &[u8]) -> Result<Option<DuplicatesSketch>, SketchError> {
    let mut pos = 0;
    DuplicatesSketch::deserialize(bytes, &mut pos)
}

#[test]
fn no_dup() {
    let mut sketch = DuplicatesSketch::new(16, 4096);
    sketch.insert(STRING);
    assert!(!sketch.has_duplicate(STRING));
}

#[test]
fn dup() {
    let mut sketch = DuplicatesSketch::new(16, 4096);
    sketch.insert(STRING);
    sketch.insert(STRING);
    assert!(sketch.has_duplicate(STRING));
}

#[test]
fn trip() {
    let mut sketch = DuplicatesSketch::new(16, 4096);
    sketch.insert(STRING);
    sketch.insert(STRING);
    sketch.insert(STRING);
    assert!(sketch.has_duplicate(STRING));
}

#[test]
fn quad() {
    let mut sketch = DuplicatesSketch::new(16, 4096);
    sketch.insert(STRING);
    sketch.insert(STRING);
    sketch.insert(STRING);
    sketch.insert(STRING);
    assert!(sketch.has_duplicate(STRING));
}

#[test]
fn repeated_and_single_items() {
    let sketch = build(4, 1024, &[b"x", b"y", b"x"]);
    assert!(sketch.has_duplicate(b"x"));
    assert!(!sketch.has_duplicate(b"y"));
    assert!(!sketch.has_duplicate(b"z"));
}

#[test]
fn distinct_items_are_not_confused() {
    let sketch = build(16, 4096, &[b"asdf", b"asdf"]);
    assert!(sketch.has_duplicate(b"asdf"));
    assert!(!sketch.has_duplicate(b"qwer"));
}

#[test]
fn merged_sketches_keep_duplicates() {
    let mut a = build(4, 1024, &[b"a", b"a"]);
    let b = build(4, 1024, &[b"b", b"b"]);
    assert!(a.is_compatible(&b));
    a.merge(&b);
    assert!(a.has_duplicate(b"a"));
    assert!(a.has_duplicate(b"b"));
}

#[test]
fn merge_counts_items_seen_once_on_each_side() {
    let mut a = build(4, 1024, &[b"a", b"c"]);
    let b = build(4, 1024, &[b"a", b"d"]);
    assert!(!a.has_duplicate(b"a"));
    a.merge(&b);
    assert!(a.has_duplicate(b"a"));
    assert_eq!(a.has_duplicate(b"c"), build(4, 1024, &[b"a", b"c", b"a", b"d"]).has_duplicate(b"c"));
}

#[test]
fn merge_partition_matches_whole() {
    let items: [&[u8]; 8] = [b"p", b"q", b"p", b"r", b"s", b"q", b"t", b"p"];
    let whole = build(4, 1024, &items);
    let mut merged = DuplicatesSketch::new(4, 1024);
    for part in [&items[..3], &items[3..5], &items[5..]] {
        merged.merge(&build(4, 1024, part));
    }
    for item in items.iter().chain([b"u" as &[u8], b"v"].iter()) {
        assert_eq!(merged.has_duplicate(item), whole.has_duplicate(item));
    }
    assert!(merged.has_duplicate(b"p"));
    assert!(merged.has_duplicate(b"q"));
}

#[test]
fn merge_with_empty_is_identity() {
    let mut a = build(4, 1024, &[b"a", b"b", b"a"]);
    let b = build(4, 1024, &[b"a", b"b", b"a"]);
    a.merge(&DuplicatesSketch::new(4, 1024));
    assert_eq!(a, b);
}

#[test]
fn merge_is_commutative() {
    let mut ab = build(4, 1024, &[b"a", b"b", b"c"]);
    ab.merge(&build(4, 1024, &[b"a", b"c", b"d"]));
    let mut ba = build(4, 1024, &[b"a", b"c", b"d"]);
    ba.merge(&build(4, 1024, &[b"a", b"b", b"c"]));
    assert_eq!(ab, ba);
    for item in [b"a", b"b", b"c", b"d", b"e"] {
        assert_eq!(ab.has_duplicate(item), ba.has_duplicate(item));
    }
}

#[test]
fn builds_are_deterministic() {
    let a = build(3, 512, &[b"one", b"two", b"one", b""]);
    let b = build(3, 512, &[b"one", b"two", b"one", b""]);
    assert_eq!(a, b);
    assert_eq!(bytes_of(&a), bytes_of(&b));
}

#[test]
fn compatibility() {
    let a = DuplicatesSketch::new(4, 1024);
    assert!(a.is_compatible(&DuplicatesSketch::new(4, 1024)));
    assert!(!a.is_compatible(&DuplicatesSketch::new(5, 1024)));
    assert!(!a.is_compatible(&DuplicatesSketch::new(4, 2048)));
}

#[test]
fn empty_item_is_hashed_like_any_other() {
    let mut sketch = DuplicatesSketch::new(4, 1024);
    sketch.insert(b"");
    assert!(!sketch.has_duplicate(b""));
    sketch.insert(b"");
    assert!(sketch.has_duplicate(b""));
    assert!(!sketch.has_duplicate(b"x"));
}

#[test]
fn one_probe_one_word() {
    let mut sketch = DuplicatesSketch::new(1, 4);
    assert_eq!(sketch.probes(), 1);
    assert_eq!(sketch.word_count(), 1);
    sketch.insert(b"k");
    assert!(!sketch.has_duplicate(b"k"));
    sketch.insert(b"k");
    assert!(sketch.has_duplicate(b"k"));
}

#[test]
fn word_counts() {
    assert_eq!(DuplicatesSketch::new(2, 0).word_count(), 1);
    assert_eq!(DuplicatesSketch::new(2, 3).word_count(), 1);
    assert_eq!(DuplicatesSketch::new(2, 4).word_count(), 1);
    assert_eq!(DuplicatesSketch::new(2, 8).word_count(), 2);
    assert_eq!(DuplicatesSketch::new(2, 12).word_count(), 4);
    assert_eq!(DuplicatesSketch::new(2, 16).word_count(), 4);
    assert_eq!(DuplicatesSketch::new(2, 20).word_count(), 8);
    assert_eq!(DuplicatesSketch::new(2, 4096).word_count(), 1024);
    assert_eq!(DuplicatesSketch::new(2, 4097).word_count(), 1024);
    assert_eq!(DuplicatesSketch::new(2, 4100).word_count(), 2048);
    assert_eq!(DuplicatesSketch::new(2, 8 << 20).word_count(), 2 << 20);
}

#[test]
fn single_insert_sets_one_low_bit() {
    let mut sketch = DuplicatesSketch::new(1, 4);
    sketch.insert(b"w");
    let bytes = bytes_of(&sketch);
    let word = u32::from_le_bytes([bytes[12], bytes[13], bytes[14], bytes[15]]);
    assert_eq!(word.count_ones(), 1);
    assert_eq!(word.trailing_zeros() % 2, 0);
    sketch.insert(b"w");
    let bytes = bytes_of(&sketch);
    let twice = u32::from_le_bytes([bytes[12], bytes[13], bytes[14], bytes[15]]);
    assert_eq!(twice, word * 3);
}

#[test]
fn serialized_layout() {
    let sketch = DuplicatesSketch::new(2, 8);
    assert_eq!(
        bytes_of(&sketch),
        vec![2, 0, 0, 0, 2, 0, 0, 0, 0, 0, 0, 0, 0, 0, 0, 0, 0, 0, 0, 0]
    );
    let big = DuplicatesSketch::new(0x0102_0304, 4);
    assert_eq!(bytes_of(&big)[..12], [4, 3, 2, 1, 1, 0, 0, 0, 0, 0, 0, 0]);
}

#[test]
fn deserialize_reads_little_endian() {
    let bytes = [3, 0, 0, 0, 1, 0, 0, 0, 0, 0, 0, 0, 0x78, 0x56, 0x34, 0x12];
    let mut pos = 0;
    let sketch = DuplicatesSketch::deserialize(&bytes, &mut pos).unwrap().unwrap();
    assert_eq!(pos, 16);
    assert_eq!(sketch.probes(), 3);
    assert_eq!(sketch.word_count(), 1);
    assert_eq!(bytes_of(&sketch), bytes.to_vec());
}

#[test]
fn merge_word_formula() {
    // lowest counters first: a holds 1, 2, 2, 1 and b holds 1, 2, 1, 0
    let a = [1, 0, 0, 0, 1, 0, 0, 0, 0, 0, 0, 0, 1 | 2 << 2 | 2 << 4 | 1 << 6, 0, 0, 0];
    let b = [1, 0, 0, 0, 1, 0, 0, 0, 0, 0, 0, 0, 1 | 2 << 2 | 1 << 4, 0, 0, 0];
    let mut x = read_one(&a).unwrap().unwrap();
    let y = read_one(&b).unwrap().unwrap();
    x.merge(&y);
    // (1, 1) gives 3, (2, 2) gives 2, (2, 1) gives 3, (1, 0) gives 1
    assert_eq!(bytes_of(&x)[12..], [3 | 2 << 2 | 3 << 4 | 1 << 6, 0, 0, 0]);
}

#[test]
fn round_trip() {
    let sketch = build(4, 1024, &[b"a", b"b", b"a", b"", b"c", b"c"]);
    let bytes = bytes_of(&sketch);
    assert_eq!(bytes.len(), 12 + 4 * 256);
    let mut pos = 0;
    let back = DuplicatesSketch::deserialize(&bytes, &mut pos).unwrap().unwrap();
    assert_eq!(pos, bytes.len());
    assert_eq!(back, sketch);
    assert!(back.has_duplicate(b"a"));
}

#[test]
fn concatenated_records() {
    let a = build(2, 8, &[b"a"]);
    let b = build(3, 16, &[b"b"]);
    let mut bytes = Vec::new();
    a.serialize(&mut bytes);
    b.serialize(&mut bytes);
    let mut pos = 0;
    let first = DuplicatesSketch::deserialize(&bytes, &mut pos).unwrap().unwrap();
    let second = DuplicatesSketch::deserialize(&bytes, &mut pos).unwrap().unwrap();
    assert_eq!(first, a);
    assert_eq!(second, b);
    assert!(DuplicatesSketch::deserialize(&bytes, &mut pos).unwrap().is_none());
}

#[test]
fn empty_stream_has_no_sketch() {
    assert!(read_one(&[]).unwrap().is_none());
}

#[test]
fn truncated_stream_is_an_error() {
    let bytes = bytes_of(&build(2, 16, &[b"a"]));
    for cut in 1..bytes.len() {
        let mut pos = 0;
        let r = DuplicatesSketch::deserialize(&bytes[..cut], &mut pos);
        assert_eq!(r.unwrap_err(), SketchError::Truncated);
        assert_eq!(pos, 0);
    }
}

#[test]
fn combine_merges_all_records() {
    let mut bytes = Vec::new();
    build(4, 1024, &[b"a", b"b"]).serialize(&mut bytes);
    build(4, 1024, &[b"a"]).serialize(&mut bytes);
    build(4, 1024, &[b"b", b"c"]).serialize(&mut bytes);
    let combined = combine_sketches(&bytes).unwrap();
    let mut expected = build(4, 1024, &[b"a", b"b"]);
    expected.merge(&build(4, 1024, &[b"a"]));
    expected.merge(&build(4, 1024, &[b"b", b"c"]));
    assert_eq!(combined, expected);
    assert!(combined.has_duplicate(b"a"));
    assert!(combined.has_duplicate(b"b"));
}

#[test]
fn combine_single_record() {
    let sketch = build(4, 1024, &[b"a"]);
    assert_eq!(combine_sketches(&bytes_of(&sketch)).unwrap(), sketch);
}

#[test]
fn combine_errors() {
    assert_eq!(combine_sketches(&[]).unwrap_err(), SketchError::NoSketches);
    let mut bytes = Vec::new();
    DuplicatesSketch::new(4, 1024).serialize(&mut bytes);
    DuplicatesSketch::new(4, 2048).serialize(&mut bytes);
    assert_eq!(combine_sketches(&bytes).unwrap_err(), SketchError::Incompatible);
    let mut bytes = Vec::new();
    DuplicatesSketch::new(4, 1024).serialize(&mut bytes);
    bytes.push(7);
    assert_eq!(combine_sketches(&bytes).unwrap_err(), SketchError::Truncated);
}
