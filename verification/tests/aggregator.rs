//! Tests of the group aggregator and the duplication arithmetic, driven
//! through the public recording functions.

use wasm_dedupe::counts::Counts;

#[test]
fn first_occurrence_not_duplicated() {
    let mut counts = Counts::default();
    counts.add_data_segment(b"some data segment");
    assert_eq!(counts.duplicated_data_segments(), 0);
    assert_eq!(counts.data_segments.entries.len(), 1);
    assert_eq!(counts.data_segments.entries[0].count, 1);
    counts.add_data_segment(b"some data segment");
    assert_eq!(counts.duplicated_data_segments(), 17);
    assert_eq!(counts.data_segments.entries.len(), 1);
    assert_eq!(counts.data_segments.entries[0].count, 2);
}

#[test]
fn duplication_arithmetic() {
    // k occurrences of an n-byte range contribute n * (k - 1) bytes.
    let mut counts = Counts::default();
    for _ in 0..4 {
        counts.add_code_body(b"body!");
    }
    assert_eq!(counts.code_bodies.entries.len(), 1);
    assert_eq!(counts.code_bodies.entries[0].size, 5);
    assert_eq!(counts.code_bodies.entries[0].count, 4);
    assert_eq!(counts.duplicated_code_bodies(), 5 * (4 - 1));
}

#[test]
fn category_isolation() {
    // Byte-identical content in two categories forms two separate groups.
    let mut counts = Counts::default();
    counts.add_data_segment(b"shared bytes");
    counts.add_code_body(b"shared bytes");
    assert_eq!(counts.data_segments.entries.len(), 1);
    assert_eq!(counts.code_bodies.entries.len(), 1);
    assert_eq!(counts.data_segments.entries[0].count, 1);
    assert_eq!(counts.code_bodies.entries[0].count, 1);
    assert_eq!(counts.duplicated_data_segments(), 0);
    assert_eq!(counts.duplicated_code_bodies(), 0);
    assert_eq!(
        counts.data_segments.entries[0].digest,
        counts.code_bodies.entries[0].digest
    );
}

#[test]
fn empty_range_digest() {
    // A zero-length range gets an ordinary digest and groups like any other.
    let mut counts = Counts::default();
    counts.add_data_segment(&[]);
    counts.add_data_segment(&[]);
    assert_eq!(counts.data_segments.entries.len(), 1);
    assert_eq!(counts.data_segments.entries[0].digest.len(), 512);
    assert_eq!(counts.data_segments.entries[0].size, 0);
    assert_eq!(counts.data_segments.entries[0].count, 2);
    assert_eq!(counts.duplicated_data_segments(), 0);
}

#[test]
fn digest_distinguishes_contents() {
    let mut counts = Counts::default();
    counts.add_elem_segment(b"aaa");
    counts.add_elem_segment(b"aab");
    assert_eq!(counts.elem_segments.entries.len(), 2);
    assert_ne!(
        counts.elem_segments.entries[0].digest,
        counts.elem_segments.entries[1].digest
    );
    assert_eq!(counts.elem_segments.entries[0].digest.len(), 512);
    assert_eq!(counts.elem_segments.entries[1].digest.len(), 512);
    assert_eq!(counts.duplicated_elem_segments(), 0);
}

#[test]
fn recording_leaves_total_size_alone() {
    let mut counts = Counts::default();
    counts.add_custom_section(b"custom payload");
    counts.add_custom_section(b"custom payload");
    assert_eq!(counts.total_size, 0);
    assert_eq!(counts.duplicated_custom_sections(), 14);
}

#[test]
fn groups_keep_first_size() {
    // The representative size is fixed when the group is created.
    let mut counts = Counts::default();
    counts.add_data_segment(b"12345678");
    counts.add_data_segment(b"12345678");
    counts.add_data_segment(b"12345678");
    assert_eq!(counts.data_segments.entries[0].size, 8);
    assert_eq!(counts.duplicated_data_segments(), 16);
}
