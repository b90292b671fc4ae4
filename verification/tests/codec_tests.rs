use checkout_core::codec::{parse_index, serialize_index};
use checkout_core::index::{StagingEntry, StagingTable};

fn entry(path: &str, id: u64, mode: u32) -> StagingEntry {
    StagingEntry { path: path.as_bytes().to_vec(), id, mode, stage: 0 }
}

fn sample_table() -> StagingTable {
    StagingTable {
        version: 2,
        entries: vec![entry("a.txt", 10, 0o100644), entry("dir/b.txt", 11, 0o100755)],
    }
}

fn tables_equal(a: &StagingTable, b: &StagingTable) -> bool {
    a.version == b.version && a.entries.len() == b.entries.len()
        && a.entries.iter().zip(b.entries.iter()).all(|(x, y)| {
            x.path == y.path && x.id == y.id && x.mode == y.mode && x.stage == y.stage
        })
}

#[test]
fn round_trip_preserves_paths_ids_modes_and_order() {
    let t = sample_table();
    let bytes = serialize_index(&t).expect("fits the format");
    let back = parse_index(&bytes).expect("its own encoding parses");
    assert!(tables_equal(&t, &back));
}

#[test]
fn round_trip_of_empty_table() {
    let t = StagingTable { version: 2, entries: vec![] };
    let bytes = serialize_index(&t).expect("fits the format");
    let back = parse_index(&bytes).expect("its own encoding parses");
    assert!(tables_equal(&t, &back));
    assert_eq!(back.entries.len(), 0);
}

#[test]
fn corrupted_byte_fails_the_checksum() {
    let t = sample_table();
    let mut bytes = serialize_index(&t).expect("fits the format");
    let mid = bytes.len() / 2;
    bytes[mid] ^= 0xff;
    assert!(parse_index(&bytes).is_none());
}

#[test]
fn truncated_image_is_refused() {
    let t = sample_table();
    let mut bytes = serialize_index(&t).expect("fits the format");
    bytes.pop();
    assert!(parse_index(&bytes).is_none());
}

#[test]
fn wrong_tag_is_refused() {
    let t = sample_table();
    let mut bytes = serialize_index(&t).expect("fits the format");
    bytes[0] = 0;
    assert!(parse_index(&bytes).is_none());
}

#[test]
fn garbage_is_refused() {
    assert!(parse_index(&vec![]).is_none());
    assert!(parse_index(&vec![1, 2, 3]).is_none());
    assert!(parse_index(&vec![0u8; 64]).is_none());
}

#[test]
fn header_layout_is_little_endian() {
    let t = StagingTable { version: 2, entries: vec![] };
    let bytes = serialize_index(&t).expect("fits the format");
    // tag, version, count, checksum
    assert_eq!(bytes.len(), 20);
    assert_eq!(&bytes[0..4], b"STBL");
    assert_eq!(&bytes[4..8], &[2, 0, 0, 0]);
    assert_eq!(&bytes[8..12], &[0, 0, 0, 0]);
}
