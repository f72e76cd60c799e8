use qrc_extract::extract::{extract_tree, read_blob, ExtractError, Output};
use qrc_extract::hash::hash_str;
use qrc_extract::locate::{
    distance, first_blob_candidates, guess_blob_range, rank_blob_starts, rank_by_distance, tree_range,
};
use qrc_extract::name::{parse_names, scan_ascii_names, scan_names};
use qrc_extract::tree::{
    collect_data_offsets, find_blob_offsets, find_tree_offsets, parse_tree, read_tree_entry,
    EntryData,
};
use rangemap::RangeSet;
use std::collections::{BTreeMap, BTreeSet, HashSet};

fn name_entry(name: &str) -> Vec<u8> {
    let units: Vec<u16> = name.encode_utf16().collect();
    let mut v = Vec::new();
    v.extend_from_slice(&(units.len() as u16).to_be_bytes());
    v.extend_from_slice(&hash_str(name).to_be_bytes());
    for u in units {
        v.extend_from_slice(&u.to_be_bytes());
    }
    v
}

fn dir_entry(name_offset: u32, child: u32, count: u32) -> Vec<u8> {
    let mut v = Vec::new();
    v.extend_from_slice(&name_offset.to_be_bytes());
    v.extend_from_slice(&2u16.to_be_bytes());
    v.extend_from_slice(&child.to_be_bytes());
    v.extend_from_slice(&count.to_be_bytes());
    v.extend_from_slice(&0u64.to_be_bytes());
    v
}

fn file_entry(name_offset: u32, flags: u16, data_offset: u32) -> Vec<u8> {
    let mut v = Vec::new();
    v.extend_from_slice(&name_offset.to_be_bytes());
    v.extend_from_slice(&flags.to_be_bytes());
    v.extend_from_slice(&0u32.to_be_bytes());
    v.extend_from_slice(&data_offset.to_be_bytes());
    v.extend_from_slice(&0u64.to_be_bytes());
    v
}

fn put(buf: &mut Vec<u8>, at: usize, bytes: &[u8]) {
    buf[at..at + bytes.len()].copy_from_slice(bytes);
}

const TREE: usize = 64;
const BLOBS: usize = 128;

/// A 256-byte bundle: names "a" and "b" at 0, a directory "a" holding file
/// "b" at 64, and the blob region at 128.
fn small_bundle(flags: u16, blob: &[u8]) -> Vec<u8> {
    let mut buf = vec![0u8; 256];
    let mut names = name_entry("a");
    names.extend(name_entry("b"));
    put(&mut buf, 0, &names);
    let mut tree = dir_entry(0, 1, 1);
    tree.extend(file_entry(8, flags, 0));
    put(&mut buf, TREE, &tree);
    put(&mut buf, BLOBS, blob);
    buf
}

fn names_of(buf: &[u8]) -> BTreeMap<usize, String> {
    let (_, names) = parse_names(buf, 0);
    names
}

fn paths(outs: &[Output]) -> Vec<(Vec<String>, Option<Vec<u8>>)> {
    outs.iter()
        .map(|o| match o {
            Output::Directory { path } => (path.clone(), None),
            Output::File { path, contents } => (path.clone(), Some(contents.clone())),
        })
        .collect()
}

#[test]
fn parse_two_names() {
    let buf = small_bundle(0, b"\x00\x00\x00\x05hello");
    let (range, names) = parse_names(&buf, 0);
    assert_eq!(range, 0..16);
    assert_eq!(names.len(), 2);
    assert_eq!(names[&0], "a");
    assert_eq!(names[&8], "b");
}

#[test]
fn parse_names_stops_at_bad_hash() {
    let mut bytes = name_entry("a");
    let mut bad = name_entry("b");
    bad[5] ^= 1;
    bytes.extend(bad);
    let (range, names) = parse_names(&bytes, 0);
    assert_eq!(range, 0..8);
    assert_eq!(names.len(), 1);
}

#[test]
fn parse_names_rejects_unpaired_surrogate() {
    let mut bytes = vec![0, 1];
    bytes.extend_from_slice(&hash_str("x").to_be_bytes());
    bytes.extend_from_slice(&[0xd8, 0x00]);
    let (range, names) = parse_names(&bytes, 0);
    assert_eq!(range, 0..0);
    assert!(names.is_empty());
}

#[test]
fn scan_finds_table_with_two_names() {
    let buf = small_bundle(0, b"\x00\x00\x00\x05hello");
    let tables = scan_names(&buf);
    assert_eq!(tables.len(), 1);
    let (range, names) = &tables[&0];
    assert_eq!(*range, 0..16);
    assert_eq!(names.len(), 2);
}

#[test]
fn scan_of_tiny_input_is_empty() {
    assert!(scan_names(&[0, 1, 0, 0, 0]).is_empty());
    assert!(scan_names(&[]).is_empty());
    let mut offsets = BTreeSet::new();
    scan_ascii_names(&mut offsets, &[0, 1, 0], 0);
    assert!(offsets.is_empty());
}

#[test]
fn scan_finds_single_entry_table() {
    let mut buf = vec![0u8; 40];
    put(&mut buf, 8, &name_entry("icons"));
    let tables = scan_names(&buf);
    assert_eq!(tables.len(), 1);
    let (range, names) = &tables[&8];
    assert_eq!(*range, 8..24);
    assert_eq!(names[&0], "icons");
}

#[test]
fn scan_finds_table_at_odd_offset() {
    let mut buf = vec![0u8; 40];
    put(&mut buf, 7, &name_entry("qml"));
    let mut offsets = BTreeSet::new();
    scan_ascii_names(&mut offsets, &buf, 1);
    assert!(offsets.contains(&7));
    let tables = scan_names(&buf);
    assert_eq!(tables[&7].0, 7..19);
}

#[test]
fn read_entries_of_tree() {
    let buf = small_bundle(0, b"\x00\x00\x00\x05hello");
    let root = read_tree_entry(&buf, TREE);
    assert_eq!(root.name_offset, 0);
    assert_eq!(root.flags, 2);
    assert_eq!(root.data, EntryData::Directory { node_id: 1, count: 1 });
    let child = read_tree_entry(&buf, TREE + 22);
    assert_eq!(child.data, EntryData::File { locale: 0, data_offset: 0 });
}

#[test]
fn tree_validates_and_is_found() {
    let buf = small_bundle(0, b"\x00\x00\x00\x05hello");
    let names = names_of(&buf);
    let offsets: HashSet<usize> = names.keys().copied().collect();
    let mut ids = RangeSet::new();
    assert_eq!(parse_tree(&offsets, &mut ids, &buf[TREE..], 0, 1), 2);
    assert!(ids.contains(&0) && ids.contains(&1));
    let trees = find_tree_offsets(&names, &buf);
    assert!(trees.contains(&TREE));
    assert_eq!(tree_range(&offsets, &buf, TREE), Some(TREE..TREE + 22));
}

#[test]
fn root_with_zero_count_is_rejected() {
    let buf = small_bundle(0, b"\x00\x00\x00\x05hello");
    let offsets: HashSet<usize> = [0usize, 8].into_iter().collect();
    let mut ids = RangeSet::new();
    assert_eq!(parse_tree(&offsets, &mut ids, &buf[TREE..], 0, 0), 0);
}

#[test]
fn tree_with_cycle_is_rejected() {
    let mut buf = vec![0u8; 128];
    put(&mut buf, 0, &dir_entry(0, 0, 1));
    let offsets: HashSet<usize> = [0usize].into_iter().collect();
    let mut ids = RangeSet::new();
    assert_eq!(parse_tree(&offsets, &mut ids, &buf, 0, 1), 0);
}

#[test]
fn tree_with_unknown_name_or_flags_is_rejected() {
    let mut buf = vec![0u8; 128];
    put(&mut buf, 0, &file_entry(4, 0, 0));
    let offsets: HashSet<usize> = [0usize].into_iter().collect();
    let mut ids = RangeSet::new();
    assert_eq!(parse_tree(&offsets, &mut ids, &buf, 0, 1), 0);
    put(&mut buf, 0, &file_entry(0, 3, 0));
    let mut ids = RangeSet::new();
    assert_eq!(parse_tree(&offsets, &mut ids, &buf, 0, 1), 0);
}

#[test]
fn extract_plain_bundle() {
    let buf = small_bundle(0, b"\x00\x00\x00\x05hello");
    let names = names_of(&buf);
    let outs = extract_tree(&names, &buf[BLOBS..], &buf[TREE..], 0, 1).unwrap();
    assert_eq!(
        paths(&outs),
        vec![
            (vec!["a".to_string()], None),
            (vec!["a".to_string(), "b".to_string()], Some(b"hello".to_vec())),
        ]
    );
}

#[test]
fn extract_compressed_bundle() {
    let mut blob = vec![0, 0, 0, 17, 0, 0, 0, 5];
    blob.extend_from_slice(&[0x78, 0x9c, 0xcb, 0x48, 0xcd, 0xc9, 0xc9, 0x07, 0x00, 0x06, 0x2c, 0x02, 0x15]);
    let buf = small_bundle(1, &blob);
    let names = names_of(&buf);
    let outs = extract_tree(&names, &buf[BLOBS..], &buf[TREE..], 0, 1).unwrap();
    assert_eq!(
        paths(&outs),
        vec![
            (vec!["a".to_string()], None),
            (vec!["a".to_string(), "b".to_string()], Some(b"hello".to_vec())),
        ]
    );
}

#[test]
fn extract_fails_on_corrupt_stream() {
    let blob = vec![0, 0, 0, 8, 0, 0, 0, 5, 1, 2, 3, 4];
    let buf = small_bundle(1, &blob);
    let names = names_of(&buf);
    let r = extract_tree(&names, &buf[BLOBS..], &buf[TREE..], 0, 1);
    assert_eq!(r.err(), Some(ExtractError::Inflate));
    let blob = vec![0, 0, 0, 2, 0, 0];
    let buf = small_bundle(1, &blob);
    let r = extract_tree(&names, &buf[BLOBS..], &buf[TREE..], 0, 1);
    assert_eq!(r.err(), Some(ExtractError::ShortCompressedBlob));
}

#[test]
fn extract_skips_missing_blob() {
    let buf = small_bundle(0, b"\x00\x00\x00\x00");
    let names = names_of(&buf);
    let outs = extract_tree(&names, &buf[BLOBS..], &buf[TREE..], 0, 1).unwrap();
    assert_eq!(paths(&outs), vec![(vec!["a".to_string()], None)]);
}

#[test]
fn blob_filling_to_end_is_accepted() {
    let blob = b"\x00\x00\x00\x05hello";
    let b = read_blob(blob, 0).unwrap();
    assert_eq!(b.size, 5);
    assert_eq!(b.bytes, b"hello".to_vec());
    assert!(read_blob(&blob[..8], 0).is_none());
    let buf = small_bundle(0, b"");
    let mut cut = buf[..BLOBS].to_vec();
    cut.extend_from_slice(blob);
    let names = names_of(&cut);
    let outs = extract_tree(&names, &cut[BLOBS..], &cut[TREE..], 0, 1).unwrap();
    assert_eq!(outs.len(), 2);
}

/// A bundle with three files whose blobs have sizes 5, 9 and 3, and a decoy
/// size field 5 before the blob region.
fn chain_bundle() -> (Vec<u8>, usize) {
    let mut buf = vec![0u8; 320];
    let mut names = name_entry("d");
    names.extend(name_entry("x"));
    names.extend(name_entry("y"));
    names.extend(name_entry("z"));
    put(&mut buf, 0, &names);
    let mut tree = dir_entry(0, 1, 3);
    tree.extend(file_entry(8, 0, 0));
    tree.extend(file_entry(16, 0, 9));
    tree.extend(file_entry(24, 0, 22));
    put(&mut buf, 64, &tree);
    put(&mut buf, 170, &[0, 0, 0, 5, 1, 2, 3, 4, 5, 0, 0, 0, 7]);
    let base = 200;
    let mut blobs = vec![0, 0, 0, 5];
    blobs.extend_from_slice(b"hello");
    blobs.extend_from_slice(&[0, 0, 0, 9]);
    blobs.extend_from_slice(b"worldwide");
    blobs.extend_from_slice(&[0, 0, 0, 3]);
    blobs.extend_from_slice(b"end");
    put(&mut buf, base, &blobs);
    (buf, base)
}

#[test]
fn size_chain_finds_blob_base() {
    let (buf, base) = chain_bundle();
    let offsets = collect_data_offsets(&buf[64..], 0, 1);
    assert_eq!(offsets.into_iter().collect::<Vec<_>>(), vec![0, 9, 22]);
    let found = find_blob_offsets(64, &buf);
    assert_eq!(found.into_iter().collect::<Vec<_>>(), vec![base]);
}

#[test]
fn size_chain_needs_two_offsets() {
    let buf = small_bundle(0, b"\x00\x00\x00\x05hello");
    assert!(find_blob_offsets(TREE, &buf).is_empty());
    assert!(find_blob_offsets(buf.len() + 1, &buf).is_empty());
}

#[test]
fn two_tables_are_extracted_independently() {
    let mut buf = vec![0u8; 512];
    let mut first = name_entry("a");
    first.extend(name_entry("b"));
    put(&mut buf, 0, &first);
    // Names whose hash fields hold no graphic pair, so that the scan sees
    // where their text starts.
    let mut second = name_entry("cc");
    second.extend(name_entry("dd"));
    put(&mut buf, 256, &second);
    let mut tree = dir_entry(0, 1, 1);
    tree.extend(file_entry(8, 0, 0));
    put(&mut buf, 64, &tree);
    let mut tree = dir_entry(0, 1, 1);
    tree.extend(file_entry(10, 0, 0));
    put(&mut buf, 320, &tree);
    put(&mut buf, 128, b"\x00\x00\x00\x03one");
    put(&mut buf, 384, b"\x00\x00\x00\x03two");
    let tables = scan_names(&buf);
    assert_eq!(tables.keys().copied().collect::<Vec<_>>(), vec![0, 256]);
    let (_, n1) = &tables[&0];
    let (_, n2) = &tables[&256];
    assert!(find_tree_offsets(n1, &buf).contains(&64));
    assert!(find_tree_offsets(n2, &buf).contains(&320));
    let o1 = extract_tree(n1, &buf[128..], &buf[64..], 0, 1).unwrap();
    let o2 = extract_tree(n2, &buf[384..], &buf[320..], 0, 1).unwrap();
    assert_eq!(
        paths(&o1)[1],
        (vec!["a".to_string(), "b".to_string()], Some(b"one".to_vec()))
    );
    assert_eq!(
        paths(&o2)[1],
        (vec!["cc".to_string(), "dd".to_string()], Some(b"two".to_vec()))
    );
}

#[test]
fn distance_between_ranges() {
    assert_eq!(distance(&(0..10), &(20..30)), 10);
    assert_eq!(distance(&(20..30), &(0..10)), 10);
    assert_eq!(distance(&(0..10), &(5..30)), 0);
    assert_eq!(distance(&(0..10), &(10..30)), 0);
}

#[test]
fn ranking_orders_by_distance() {
    let ranked = rank_by_distance(&(100..200), &vec![500..600, 150..160, 0..90, 120..130, 210..220]);
    assert_eq!(
        ranked,
        vec![(0, 150..160), (0, 120..130), (10, 0..90), (10, 210..220), (300, 500..600)]
    );
}

#[test]
fn padding_guess_skips_zero_blocks() {
    let mut buf = vec![0u8; 64];
    put(&mut buf, 32, &[0, 0, 0, 3, 1, 2, 3, 9]);
    assert_eq!(guess_blob_range(&buf, 13), Some(32..39));
    assert_eq!(guess_blob_range(&buf[..36], 13), None);
    assert_eq!(guess_blob_range(&buf, 40), None);
}

#[test]
fn first_strategy_with_candidates_wins() {
    let chain: BTreeSet<usize> = [40usize, 8].into_iter().collect();
    let mut push = BTreeMap::new();
    push.insert(30usize, 7usize);
    push.insert(2usize, 9usize);
    let empty_map: BTreeMap<usize, usize> = BTreeMap::new();
    assert_eq!(first_blob_candidates(&chain, &push, &empty_map, &empty_map), vec![8, 40]);
    let empty_set: BTreeSet<usize> = BTreeSet::new();
    assert_eq!(first_blob_candidates(&empty_set, &push, &empty_map, &empty_map), vec![9, 7]);
    assert_eq!(first_blob_candidates(&empty_set, &empty_map, &empty_map, &push), vec![9, 7]);
    assert!(first_blob_candidates(&empty_set, &empty_map, &empty_map, &empty_map).is_empty());
}

#[test]
fn blob_bases_rank_by_their_own_offset() {
    let ranked = rank_blob_starts(&(100..200), &vec![50, 10, 300, 900], 400);
    assert_eq!(ranked, vec![(50, 50..400), (90, 10..400), (100, 300..400)]);
}
