//! Tests of the structure walker on hand-assembled WebAssembly binaries,
//! decoded by the real format decoder.

use wasm_dedupe::counts::Counts;
use wasm_dedupe::walker::DecodeError;

fn leb(mut n: u32) -> Vec<u8> {
    let mut out = Vec::new();
    loop {
        let byte = (n & 0x7f) as u8;
        n >>= 7;
        if n == 0 {
            out.push(byte);
            return out;
        }
        out.push(byte | 0x80);
    }
}

fn section(id: u8, content: &[u8]) -> Vec<u8> {
    let mut out = vec![id];
    out.extend_from_slice(&leb(content.len() as u32));
    out.extend_from_slice(content);
    out
}

fn module_header() -> Vec<u8> {
    vec![0x00, 0x61, 0x73, 0x6d, 0x01, 0x00, 0x00, 0x00]
}

fn component_header() -> Vec<u8> {
    vec![0x00, 0x61, 0x73, 0x6d, 0x0d, 0x00, 0x01, 0x00]
}

/// One active data segment: flags 0, offset expression `i32.const 0; end`,
/// then the payload. The decoder reports the whole entry as the segment's
/// byte range, so the recorded range is 5 bytes of framing plus the payload.
fn data_entry(payload: &[u8]) -> Vec<u8> {
    let mut out = vec![0x00, 0x41, 0x00, 0x0b];
    out.extend_from_slice(&leb(payload.len() as u32));
    out.extend_from_slice(payload);
    out
}

fn data_section(entries: &[Vec<u8>]) -> Vec<u8> {
    let mut content = leb(entries.len() as u32);
    for e in entries {
        content.extend_from_slice(e);
    }
    section(11, &content)
}

/// A module whose only contents are the given data segments.
fn data_module(entries: &[Vec<u8>]) -> Vec<u8> {
    let mut m = module_header();
    m.extend_from_slice(&data_section(entries));
    m
}

/// A module with one empty function; its code body is the two bytes
/// `[0x00, 0x0b]` (no locals, `end`).
fn one_function_module() -> Vec<u8> {
    let mut m = module_header();
    m.extend_from_slice(&section(1, &[0x01, 0x60, 0x00, 0x00]));
    m.extend_from_slice(&section(3, &[0x01, 0x00]));
    m.extend_from_slice(&section(10, &[0x01, 0x02, 0x00, 0x0b]));
    m
}

#[test]
fn empty_module_counts_only_size() {
    let mut counts = Counts::default();
    let m = module_header();
    assert!(counts.add_wasm(&m).is_ok());
    assert_eq!(counts.total_size, 8);
    assert_eq!(counts.data_segments.entries.len(), 0);
    assert_eq!(counts.elem_segments.entries.len(), 0);
    assert_eq!(counts.code_bodies.entries.len(), 0);
    assert_eq!(counts.custom_sections.entries.len(), 0);
}

#[test]
fn code_body_recorded() {
    let mut counts = Counts::default();
    let m = one_function_module();
    assert!(counts.add_wasm(&m).is_ok());
    assert_eq!(counts.total_size, m.len() as u64);
    assert_eq!(counts.code_bodies.entries.len(), 1);
    assert_eq!(counts.code_bodies.entries[0].size, 2);
    assert_eq!(counts.code_bodies.entries[0].count, 1);
    assert_eq!(counts.duplicated_code_bodies(), 0);
}

#[test]
fn corpus_of_two_files() {
    // Two files, each with one identical 100-byte data segment and one
    // unique 50-byte data segment: the identical content forms one group of
    // two occurrences (100 duplicated bytes); each unique content forms its
    // own group with none.
    let shared = data_entry(&[0xaa; 95]); // 5 framing bytes + 95 payload
    assert_eq!(shared.len(), 100);
    let unique_a = data_entry(&[0x01; 45]);
    let unique_b = data_entry(&[0x02; 45]);
    assert_eq!(unique_a.len(), 50);
    let file_a = data_module(&[shared.clone(), unique_a]);
    let file_b = data_module(&[shared, unique_b]);

    let mut counts = Counts::default();
    assert!(counts.add_wasm(&file_a).is_ok());
    assert!(counts.add_wasm(&file_b).is_ok());

    assert_eq!(counts.total_size, (file_a.len() + file_b.len()) as u64);
    assert_eq!(counts.data_segments.entries.len(), 3);
    let mut twos = 0;
    let mut ones = 0;
    for e in &counts.data_segments.entries {
        match e.count {
            2 => {
                assert_eq!(e.size, 100);
                twos += 1;
            }
            1 => {
                assert_eq!(e.size, 50);
                ones += 1;
            }
            other => panic!("unexpected occurrence count {other}"),
        }
    }
    assert_eq!((twos, ones), (1, 2));
    assert_eq!(counts.duplicated_data_segments(), 100);
}

#[test]
fn nested_module_counts_per_occurrence() {
    // A component embedding a module, and an identical copy of that module
    // inside an embedded sub-component: the code body occurs once per
    // nesting level and its group counts both.
    let m = one_function_module();
    let mut inner = component_header();
    inner.extend_from_slice(&section(1, &m));
    let mut outer = component_header();
    outer.extend_from_slice(&section(1, &m));
    outer.extend_from_slice(&section(4, &inner));

    let mut counts = Counts::default();
    assert!(counts.add_wasm(&outer).is_ok());
    assert_eq!(counts.total_size, outer.len() as u64);
    assert_eq!(counts.code_bodies.entries.len(), 1);
    assert_eq!(counts.code_bodies.entries[0].count, 2);
    assert_eq!(counts.code_bodies.entries[0].size, 2);
    assert_eq!(counts.duplicated_code_bodies(), 2);
}

#[test]
fn malformed_file_fails_alone() {
    // A structurally truncated file raises a structural error; other files'
    // statistics are unaffected and fully counted.
    let good = data_module(&[data_entry(&[0xcc; 10])]);
    let mut bad = module_header();
    bad.extend_from_slice(&[11, 16, 0x01]); // data section claims 16 bytes, has 1

    let mut counts = Counts::default();
    assert!(counts.add_wasm(&good).is_ok());
    let before_groups = counts.data_segments.entries.len();
    let err = counts.add_wasm(&bad).unwrap_err();
    assert!(matches!(err, DecodeError::Malformed { .. }));
    // The failed file's length is still tallied; the group maps kept what
    // the good file contributed.
    assert_eq!(counts.total_size, (good.len() + bad.len()) as u64);
    assert_eq!(counts.data_segments.entries.len(), before_groups);
    assert!(counts.add_wasm(&good).is_ok());
    assert_eq!(counts.data_segments.entries[0].count, 2);
    assert_eq!(counts.duplicated_data_segments(), 15);
}

#[test]
fn totals_monotone_over_files() {
    let file = data_module(&[data_entry(&[0x11; 20])]);
    let mut counts = Counts::default();
    assert!(counts.add_wasm(&file).is_ok());
    let size_1 = counts.total_size;
    let dup_1 = counts.duplicated_data_segments();
    assert!(counts.add_wasm(&file).is_ok());
    assert!(counts.total_size > size_1);
    assert!(counts.duplicated_data_segments() >= dup_1);
    assert_eq!(counts.total_size, 2 * file.len() as u64);
    assert_eq!(counts.duplicated_data_segments(), 25);
}

#[test]
fn elem_segments_recorded() {
    // One element segment, twice in one file: active segment, table 0,
    // offset expression, two function indices; the whole 7-byte entry is
    // the recorded range.
    let entry: Vec<u8> = vec![0x00, 0x41, 0x00, 0x0b, 0x02, 0x00, 0x00];
    let mut content = vec![0x02];
    content.extend_from_slice(&entry);
    content.extend_from_slice(&entry);
    let mut m = module_header();
    m.extend_from_slice(&section(9, &content));

    let mut counts = Counts::default();
    assert!(counts.add_wasm(&m).is_ok());
    assert_eq!(counts.elem_segments.entries.len(), 1);
    assert_eq!(counts.elem_segments.entries[0].count, 2);
    assert_eq!(counts.elem_segments.entries[0].size, 7);
    assert_eq!(counts.duplicated_elem_segments(), 7);
}

#[test]
fn custom_sections_group_by_payload() {
    // The recorded range of a custom section is its payload after the name,
    // so two sections with different names but one payload share a group.
    let named = |name: &[u8], payload: &[u8]| {
        let mut content = leb(name.len() as u32);
        content.extend_from_slice(name);
        content.extend_from_slice(payload);
        section(0, &content)
    };
    let mut m = module_header();
    m.extend_from_slice(&named(b"first", b"payload"));
    m.extend_from_slice(&named(b"second", b"payload"));

    let mut counts = Counts::default();
    assert!(counts.add_wasm(&m).is_ok());
    assert_eq!(counts.custom_sections.entries.len(), 1);
    assert_eq!(counts.custom_sections.entries[0].count, 2);
    assert_eq!(counts.custom_sections.entries[0].size, 7);
    assert_eq!(counts.duplicated_custom_sections(), 7);
}

#[test]
fn walker_records_the_file_bytes() {
    // The walker must record exactly the segment's bytes out of the file:
    // recording the same slice directly through the aggregator yields the
    // same group digest. The single data entry starts right after the
    // 8-byte header, the 2-byte section header and the 1-byte entry count.
    let entry = data_entry(&[0x5a; 30]);
    let file = data_module(&[entry.clone()]);
    assert_eq!(&file[11..11 + entry.len()], &entry[..]);

    let mut walked = Counts::default();
    assert!(walked.add_wasm(&file).is_ok());
    let mut direct = Counts::default();
    direct.add_data_segment(&entry);

    assert_eq!(walked.data_segments.entries.len(), 1);
    assert_eq!(
        walked.data_segments.entries[0].digest,
        direct.data_segments.entries[0].digest
    );
    assert_eq!(walked.data_segments.entries[0].size, entry.len() as u64);
}

#[test]
fn record_ranges_rejects_out_of_bounds() {
    let file = [1u8, 2, 3, 4, 5];
    let mut map = wasm_dedupe::groups::GroupMap::new();
    let bad = vec![(0u64, 2u64), (3u64, 9u64)];
    let err = wasm_dedupe::walker::record_ranges(&mut map, &file, &bad).unwrap_err();
    assert!(matches!(err, DecodeError::BadRange { start: 3, end: 9 }));
    assert_eq!(map.entries.len(), 0);

    let good = vec![(0u64, 2u64), (0u64, 2u64), (2u64, 5u64)];
    assert!(wasm_dedupe::walker::record_ranges(&mut map, &file, &good).is_ok());
    assert_eq!(map.entries.len(), 2);
    assert_eq!(map.entries[0].count, 2);
    assert_eq!(map.entries[0].size, 2);
    assert_eq!(map.entries[1].count, 1);
    assert_eq!(map.entries[1].size, 3);
}

#[test]
fn garbage_file_is_malformed() {
    let mut counts = Counts::default();
    let err = counts.add_wasm(b"not wasm at all").unwrap_err();
    assert!(matches!(err, DecodeError::Malformed { .. }));
    assert_eq!(counts.total_size, 15);
}
