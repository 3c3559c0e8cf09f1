use kwin_mouse_loc::bytes::ByteOrder;
use kwin_mouse_loc::consts::{
    commit_offsets, decode_offsets, encode_offsets, save_offset, CacheError, FileWrite, Offset,
    OffsetSet, RECORD_LEN,
};

fn sentinel_bytes() -> Vec<u8> {
    let mut b = Vec::new();
    b.extend_from_slice(&0u64.to_le_bytes());
    b.extend_from_slice(&0xface_feed_cafe_babeu64.to_le_bytes());
    b.extend_from_slice(&0xdead_beef_fee1_deadu64.to_le_bytes());
    b
}

fn apply(file: &mut Vec<u8>, w: &FileWrite) {
    let p = w.position as usize;
    file[p..p + w.bytes.len()].copy_from_slice(&w.bytes);
}

#[test]
fn encode_lays_words_out_in_order() {
    assert_eq!(encode_offsets(&OffsetSet::sentinel(), ByteOrder::Little), sentinel_bytes());
    let s = OffsetSet { offset: 0x0102, pos: 3, kwin: 0x0a0b0c };
    let mut big = Vec::new();
    big.extend_from_slice(&0x0102u64.to_be_bytes());
    big.extend_from_slice(&3u64.to_be_bytes());
    big.extend_from_slice(&0x0a0b0cu64.to_be_bytes());
    assert_eq!(encode_offsets(&s, ByteOrder::Big), big);
}

#[test]
fn record_round_trip() {
    let s = OffsetSet { offset: 0xa1a000, pos: 0xa19000, kwin: u64::MAX };
    for order in [ByteOrder::Little, ByteOrder::Big] {
        let b = encode_offsets(&s, order);
        assert_eq!(b.len(), RECORD_LEN);
        assert_eq!(decode_offsets(&b, order), Some(s));
    }
    assert_eq!(decode_offsets(&[0u8; 23], ByteOrder::Little), None);
    assert_eq!(decode_offsets(&[0u8; 25], ByteOrder::Little), None);
}

#[test]
fn commit_then_read_back() {
    let mut file = vec![0x55u8; 0x40];
    file[0x10..0x28].copy_from_slice(&sentinel_bytes());
    let located = OffsetSet { offset: 0x10, pos: 0x30, kwin: 0x38 };
    let current = OffsetSet::sentinel();
    assert!(!current.is_initialized());
    let w = commit_offsets(&current, &located, &file[0x10..0x28], ByteOrder::Little).unwrap();
    assert_eq!(w.position, 0x10);
    apply(&mut file, &w);
    let next_run = decode_offsets(&file[0x10..0x28], ByteOrder::Little).unwrap();
    assert_eq!(next_run, located);
    assert!(next_run.is_initialized());
    assert_eq!(&file[0..0x10], &[0x55u8; 0x10][..]);
    assert_eq!(&file[0x28..], &[0x55u8; 0x18][..]);
}

#[test]
fn second_commit_is_refused() {
    let located = OffsetSet { offset: 0x10, pos: 0x30, kwin: 0x38 };
    let on_disk = encode_offsets(&located, ByteOrder::Little);
    let again = OffsetSet { offset: 0x20, pos: 0x40, kwin: 0x48 };
    assert_eq!(
        commit_offsets(&located, &again, &on_disk, ByteOrder::Little).map(|w| w.position),
        Err(CacheError::AlreadyInitialized)
    );
}

#[test]
fn commit_checks_the_sentinel() {
    let located = OffsetSet { offset: 0x10, pos: 0x30, kwin: 0x38 };
    let mut on_disk = sentinel_bytes();
    on_disk[9] ^= 1;
    assert_eq!(
        commit_offsets(&OffsetSet::sentinel(), &located, &on_disk, ByteOrder::Little).map(|w| w.position),
        Err(CacheError::SentinelMismatch)
    );
    assert_eq!(
        commit_offsets(&OffsetSet::sentinel(), &located, &sentinel_bytes()[..16], ByteOrder::Little)
            .map(|w| w.position),
        Err(CacheError::SentinelMismatch)
    );
    let at_zero = OffsetSet { offset: 0, pos: 0x30, kwin: 0x38 };
    assert_eq!(
        commit_offsets(&OffsetSet::sentinel(), &at_zero, &sentinel_bytes(), ByteOrder::Little).map(|w| w.position),
        Err(CacheError::InvalidLocation)
    );
}

#[test]
fn save_offset_writes_at_slot() {
    let table = OffsetSet { offset: 0x10, pos: 0x30, kwin: 0x38 };
    let plan = save_offset(&table, None, &[], 0x6a3f48, Offset::Kwin, ByteOrder::Little).unwrap();
    assert_eq!(plan.table, table);
    assert_eq!(plan.writes.len(), 1);
    assert_eq!(plan.writes[0].position, 0x38);
    assert_eq!(plan.writes[0].bytes, 0x6a3f48u64.to_le_bytes().to_vec());
    let plan = save_offset(&table, None, &[], 176, Offset::Pos, ByteOrder::Big).unwrap();
    assert_eq!(plan.writes[0].position, 0x30);
    assert_eq!(plan.writes[0].bytes, 176u64.to_be_bytes().to_vec());
}

#[test]
fn save_offset_never_writes_into_the_record() {
    let table = OffsetSet { offset: 0x10, pos: 0x30, kwin: 0x38 };
    assert_eq!(
        save_offset(&table, None, &[], 1, Offset::Offset, ByteOrder::Little).map(|p| p.table),
        Err(CacheError::RecordSlot)
    );
    let overlapping = OffsetSet { offset: 0x10, pos: 0x24, kwin: 0x09 };
    assert_eq!(
        save_offset(&overlapping, None, &[], 1, Offset::Pos, ByteOrder::Little).map(|p| p.table),
        Err(CacheError::RecordSlot)
    );
    assert_eq!(
        save_offset(&overlapping, None, &[], 1, Offset::Kwin, ByteOrder::Little).map(|p| p.table),
        Err(CacheError::RecordSlot)
    );
}

#[test]
fn first_save_fills_the_record() {
    let mut file = vec![0x55u8; 0x40];
    file[0x10..0x28].copy_from_slice(&sentinel_bytes());
    let located = OffsetSet { offset: 0x10, pos: 0x30, kwin: 0x38 };
    let plan = save_offset(
        &OffsetSet::sentinel(),
        Some(located),
        &file[0x10..0x28],
        176,
        Offset::Pos,
        ByteOrder::Little,
    )
    .unwrap();
    assert_eq!(plan.table, located);
    assert_eq!(plan.writes.len(), 2);
    for w in &plan.writes {
        apply(&mut file, w);
    }
    assert_eq!(decode_offsets(&file[0x10..0x28], ByteOrder::Little), Some(located));
    assert_eq!(&file[0x30..0x38], &176u64.to_le_bytes()[..]);
    let again = save_offset(&plan.table, None, &[], 0x6a3f48, Offset::Kwin, ByteOrder::Little).unwrap();
    assert_eq!(again.writes.len(), 1);
    apply(&mut file, &again.writes[0]);
    assert_eq!(decode_offsets(&file[0x10..0x28], ByteOrder::Little), Some(located));
}

#[test]
fn save_on_unfilled_record_checks_the_sentinel() {
    let located = OffsetSet { offset: 0x10, pos: 0x30, kwin: 0x38 };
    let patched = encode_offsets(&located, ByteOrder::Little);
    assert_eq!(
        save_offset(&OffsetSet::sentinel(), Some(located), &patched, 176, Offset::Pos, ByteOrder::Little)
            .map(|p| p.table),
        Err(CacheError::SentinelMismatch)
    );
    assert_eq!(
        save_offset(&OffsetSet::sentinel(), None, &sentinel_bytes(), 176, Offset::Pos, ByteOrder::Little)
            .map(|p| p.table),
        Err(CacheError::NotInitialized)
    );
}
