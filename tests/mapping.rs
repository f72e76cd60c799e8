use qrc_extract::blob::{find_blobs_lea, find_blobs_push};
use qrc_extract::executable::{
    ExecutableMapping, ImageHeaders, MappingError, SectionRecord, SegmentRecord, PT_LOAD,
};
use std::collections::BTreeMap;

fn identity_elf(len: u64) -> ExecutableMapping {
    let h = ImageHeaders::Elf {
        segments: vec![SegmentRecord { kind: PT_LOAD, file_start: 0, file_size: len, va_start: 0, va_size: len }],
    };
    match ExecutableMapping::from_headers(&h) {
        Ok(m) => m,
        Err(_) => panic!("mapping"),
    }
}

#[test]
fn elf_mapping_translates_both_ways() {
    let h = ImageHeaders::Elf {
        segments: vec![
            SegmentRecord { kind: PT_LOAD, file_start: 0x1000, file_size: 0x100, va_start: 0x40_1000, va_size: 0x200 },
            SegmentRecord { kind: 6, file_start: 0, file_size: 0x40, va_start: 0x40_0000, va_size: 0x40 },
        ],
    };
    let m = ExecutableMapping::from_headers(&h).ok().unwrap();
    assert_eq!(m.rva_to_file_offset(0x40_1010), Some(0x1010));
    assert_eq!(m.file_offset_to_rva(0x1010), Some(0x40_1010));
    assert_eq!(m.rva_to_file_offset(0x40_0010), None);
    assert_eq!(m.file_offset_to_rva(0x2000), None);
    for x in [0x1000usize, 0x1080, 0x10ff] {
        let rva = m.file_offset_to_rva(x).unwrap();
        assert_eq!(m.rva_to_file_offset(rva), Some(x));
    }
}

#[test]
fn pe_mapping_uses_image_base() {
    let h = ImageHeaders::Pe {
        image_base: 0x1_4000_0000,
        sections: vec![
            SectionRecord { file_start: 0x400, file_size: 0x200, va_start: 0x1000, va_size: 0x300 },
            SectionRecord { file_start: 0, file_size: 0, va_start: 0x2000, va_size: 0x100 },
        ],
    };
    let m = ExecutableMapping::from_headers(&h).ok().unwrap();
    assert_eq!(m.rva_to_file_offset(0x1_4000_1010), Some(0x410));
    assert_eq!(m.rva_to_file_offset(0x10), None);
    assert_eq!(m.file_offset_to_rva(0x410), Some(0x1_4000_1010));
    assert_eq!(m.rva_to_file_offset(0x1_4000_2010), None);
}

#[test]
fn overflowing_segment_is_an_error() {
    let h = ImageHeaders::Elf {
        segments: vec![SegmentRecord { kind: PT_LOAD, file_start: u64::MAX, file_size: 2, va_start: 0, va_size: 2 }],
    };
    assert_eq!(ExecutableMapping::from_headers(&h).err(), Some(MappingError::Overflow));
}

#[test]
fn unknown_format_maps_nothing() {
    let m = ExecutableMapping::from_headers(&ImageHeaders::Other).ok().unwrap();
    assert_eq!(m.rva_to_file_offset(0), None);
    let tiny = ExecutableMapping::parse(&[1, 2, 3, 4]).ok().unwrap();
    assert_eq!(tiny.rva_to_file_offset(0), None);
    let unknown = ExecutableMapping::parse(&[0x11u8; 64]).ok().unwrap();
    assert_eq!(unknown.file_offset_to_rva(0), None);
}

#[test]
fn truncated_elf_header_is_malformed() {
    let b = minimal_elf(512);
    assert_eq!(ExecutableMapping::parse(&b[..40]).err(), Some(MappingError::Malformed));
}

fn minimal_elf(total: usize) -> Vec<u8> {
    let mut b = vec![0u8; total];
    b[0..4].copy_from_slice(&[0x7f, b'E', b'L', b'F']);
    b[4] = 2;
    b[5] = 1;
    b[6] = 1;
    b[16..18].copy_from_slice(&2u16.to_le_bytes());
    b[18..20].copy_from_slice(&0x3eu16.to_le_bytes());
    b[20..24].copy_from_slice(&1u32.to_le_bytes());
    b[24..32].copy_from_slice(&0x40_0000u64.to_le_bytes());
    b[32..40].copy_from_slice(&64u64.to_le_bytes());
    b[52..54].copy_from_slice(&64u16.to_le_bytes());
    b[54..56].copy_from_slice(&56u16.to_le_bytes());
    b[56..58].copy_from_slice(&1u16.to_le_bytes());
    b[58..60].copy_from_slice(&64u16.to_le_bytes());
    let ph = 64;
    b[ph..ph + 4].copy_from_slice(&1u32.to_le_bytes());
    b[ph + 4..ph + 8].copy_from_slice(&5u32.to_le_bytes());
    b[ph + 8..ph + 16].copy_from_slice(&0u64.to_le_bytes());
    b[ph + 16..ph + 24].copy_from_slice(&0x40_0000u64.to_le_bytes());
    b[ph + 24..ph + 32].copy_from_slice(&0x40_0000u64.to_le_bytes());
    b[ph + 32..ph + 40].copy_from_slice(&(total as u64).to_le_bytes());
    b[ph + 40..ph + 48].copy_from_slice(&(total as u64).to_le_bytes());
    b[ph + 48..ph + 56].copy_from_slice(&0x1000u64.to_le_bytes());
    b
}

#[test]
fn parse_reads_elf_load_segment() {
    let b = minimal_elf(512);
    let m = ExecutableMapping::parse(&b).ok().unwrap();
    assert_eq!(m.rva_to_file_offset(0x40_0100), Some(0x100));
    assert_eq!(m.file_offset_to_rva(0x100), Some(0x40_0100));
}

fn lea(buf: &mut [u8], at: usize, reg: u8, target: usize) {
    buf[at] = 0x8d;
    buf[at + 1] = reg;
    let disp = (target - at - 6) as u32;
    buf[at + 2..at + 6].copy_from_slice(&disp.to_le_bytes());
}

#[test]
fn lea_scan_ranks_blob_reference_by_proximity() {
    let mut buf = vec![0u8; 1024];
    let (tree, names, blobs, far) = (600usize, 512usize, 700usize, 800usize);
    lea(&mut buf, 100, 0x35, tree);
    lea(&mut buf, 120, 0x15, names);
    lea(&mut buf, 140, 0x0d, blobs);
    lea(&mut buf, 300, 0x0d, far);
    let m = identity_elf(1024);
    let scores = find_blobs_lea(&buf, &m, tree, names, false);
    let mut expected = BTreeMap::new();
    expected.insert(20, blobs);
    expected.insert(180, far);
    assert_eq!(scores, expected);
    assert_eq!(scores.values().next(), Some(&blobs));
    assert!(find_blobs_lea(&buf, &m, tree, names, true).is_empty());
}

#[test]
fn lea_scan_for_microsoft_registers() {
    let mut buf = vec![0u8; 512];
    lea(&mut buf, 40, 0x15, 300);
    lea(&mut buf, 52, 0x0d, 400);
    let m = identity_elf(512);
    let scores = find_blobs_lea(&buf, &m, 300, 200, true);
    assert_eq!(scores.into_iter().collect::<Vec<_>>(), vec![(12, 400)]);
}

fn push(buf: &mut [u8], at: usize, target: u32) {
    buf[at] = 0x68;
    buf[at + 1..at + 5].copy_from_slice(&target.to_le_bytes());
}

#[test]
fn push_scan_skips_anchors_and_scores_the_rest() {
    let mut buf = vec![0u8; 512];
    push(&mut buf, 10, 300);
    push(&mut buf, 20, 200);
    push(&mut buf, 33, 400);
    let m = identity_elf(512);
    let scores = find_blobs_push(&buf, &m, 300, 200);
    assert_eq!(scores.into_iter().collect::<Vec<_>>(), vec![(13, 400)]);
    assert!(find_blobs_push(&buf, &m, 1, 2).is_empty());
}

fn lea_va(buf: &mut [u8], at: usize, reg: u8, target: usize) {
    buf[at] = 0x8d;
    buf[at + 1] = reg;
    let disp = (0x40_0000 + target - at - 6) as u32;
    buf[at + 2..at + 6].copy_from_slice(&disp.to_le_bytes());
}

#[test]
fn lea_scan_in_elf_image() {
    let mut buf = minimal_elf(2048);
    let (tree, names, blobs, decoy) = (1200usize, 1024usize, 1400usize, 1600usize);
    lea_va(&mut buf, 300, 0x35, tree);
    lea_va(&mut buf, 310, 0x15, names);
    lea_va(&mut buf, 330, 0x0d, blobs);
    lea_va(&mut buf, 900, 0x0d, decoy);
    let m = ExecutableMapping::parse(&buf).ok().unwrap();
    let scores = find_blobs_lea(&buf, &m, tree, names, false);
    assert_eq!(scores.values().next(), Some(&blobs));
    assert_eq!(scores.get(&20), Some(&blobs));
    assert_eq!(scores.get(&590), Some(&decoy));
}
