use memhack::numeric::Comparison;
use memhack::scanner::{
    chunk_reads, next_scan, read_outcome, read_requests, read_value, scan_alignment, scan_buffer, scan_offsets,
    FirstScan, CHUNK_SIZE,
};
use memhack::types::{FoundAddress, MemoryRegion, ScanFilter, ScanValue, ValueType};

fn fa(address: u64, v: ScanValue, prev: Vec<u8>) -> FoundAddress {
    FoundAddress { address, current_value: v, previous_bytes: prev }
}

#[test]
fn alignment_per_kind() {
    assert_eq!(scan_alignment(&ScanValue::U8(0)), 1);
    assert_eq!(scan_alignment(&ScanValue::I16(0)), 2);
    assert_eq!(scan_alignment(&ScanValue::F32(0)), 4);
    assert_eq!(scan_alignment(&ScanValue::U64(0)), 8);
    assert_eq!(scan_alignment(&ScanValue::StringUtf8("a".into())), 1);
}

#[test]
fn first_scan_finds_aligned_matches_only() {
    let mut buf = vec![0u8; 16];
    buf[4..8].copy_from_slice(&100u32.to_le_bytes());
    buf[9..13].copy_from_slice(&100u32.to_le_bytes());
    let found = scan_buffer(&ScanValue::U32(100), &buf, 0x4000, buf.len() + 1, &[]);
    assert_eq!(found.len(), 1);
    assert_eq!(found[0].address, 0x4004);
    assert_eq!(found[0].previous_bytes, 100u32.to_le_bytes().to_vec());
}

#[test]
fn first_scan_strings_at_every_offset() {
    let buf = b"abab".to_vec();
    let found = scan_buffer(&ScanValue::StringUtf8("ab".into()), &buf, 10, buf.len() + 1, &[]);
    let addrs: Vec<u64> = found.iter().map(|f| f.address).collect();
    assert_eq!(addrs, vec![10, 12]);
}

#[test]
fn empty_pattern_matches_every_position() {
    let found = scan_buffer(&ScanValue::ByteArray(vec![]), &[1, 2], 0, 3, &[]);
    let addrs: Vec<u64> = found.iter().map(|f| f.address).collect();
    assert_eq!(addrs, vec![0, 1, 2]);
}

#[test]
fn float_scans_take_decisions_per_candidate() {
    let buf = vec![0u8; 12];
    let target = ScanValue::F32(0);
    assert_eq!(scan_offsets(&target, buf.len(), buf.len() + 1), vec![0, 4, 8]);
    assert_eq!(scan_offsets(&target, buf.len(), 8), vec![0, 4]);
    let found = scan_buffer(&target, &buf, 0x100, buf.len() + 1, &[false, true]);
    let addrs: Vec<u64> = found.iter().map(|f| f.address).collect();
    assert_eq!(addrs, vec![0x104]);
}

#[test]
fn offsets_when_value_does_not_fit() {
    assert_eq!(scan_offsets(&ScanValue::U64(0), 7, 8), Vec::<usize>::new());
    assert_eq!(scan_offsets(&ScanValue::U16(0), 5, 6), vec![0, 2]);
}

#[test]
fn chunks_cover_region() {
    let region = MemoryRegion { base_address: 0x10000, size: (CHUNK_SIZE as u64) * 2 + 5 };
    let reads = chunk_reads(&region, 4);
    assert_eq!(
        reads,
        vec![
            (0x10000, CHUNK_SIZE + 3, CHUNK_SIZE),
            (0x10000 + CHUNK_SIZE as u64, CHUNK_SIZE + 3, CHUNK_SIZE),
            (0x10000 + 2 * CHUNK_SIZE as u64, 5, 6)
        ]
    );
    assert_eq!(chunk_reads(&MemoryRegion { base_address: 5, size: 0 }, 4), vec![]);
    // a value of no bytes is looked for up to and including each chunk's end
    assert_eq!(
        chunk_reads(&region, 0),
        vec![
            (0x10000, CHUNK_SIZE, CHUNK_SIZE + 1),
            (0x10000 + CHUNK_SIZE as u64, CHUNK_SIZE, CHUNK_SIZE + 1),
            (0x10000 + 2 * CHUNK_SIZE as u64, 5, 6)
        ]
    );
    // the overlap stops at the region's end
    let short = MemoryRegion { base_address: 0, size: CHUNK_SIZE as u64 + 2 };
    assert_eq!(chunk_reads(&short, 8), vec![(0, CHUNK_SIZE + 2, CHUNK_SIZE), (CHUNK_SIZE as u64, 2, 3)]);
}

#[test]
fn match_across_chunk_boundary_is_found() {
    let size = CHUNK_SIZE + 1;
    let mut memory = vec![0u8; size];
    memory[CHUNK_SIZE - 1] = 0xAB;
    memory[CHUNK_SIZE] = 0xCD;
    let regions = vec![MemoryRegion { base_address: 0x100000, size: size as u64 }];
    let target = ScanValue::ByteArray(vec![0xAB, 0xCD]);
    let mut scan = FirstScan::new(target, &regions);
    while let Some((_, addr, len, _)) = scan.next_read() {
        let start = (addr - 0x100000) as usize;
        scan.feed(Some(memory[start..start + len].to_vec()), &[]);
    }
    let found: Vec<u64> = scan.finish().iter().map(|f| f.address).collect();
    assert_eq!(found, vec![0x100000 + CHUNK_SIZE as u64 - 1]);
}

#[test]
fn region_ending_at_top_of_address_space() {
    let regions = vec![MemoryRegion { base_address: u64::MAX - 3, size: 4 }];
    let mut scan = FirstScan::new(ScanValue::U16(9), &regions);
    let (_, addr, len, _) = scan.next_read().unwrap();
    assert_eq!((addr, len), (u64::MAX - 3, 4));
    scan.feed(Some(vec![0, 0, 9, 0]), &[]);
    let found: Vec<u64> = scan.finish().iter().map(|f| f.address).collect();
    assert_eq!(found, vec![u64::MAX - 1]);
}

#[test]
fn first_scan_over_regions() {
    let regions = vec![
        MemoryRegion { base_address: 0x1000, size: 8 },
        MemoryRegion { base_address: 0x2000, size: 4 },
    ];
    let mut scan = FirstScan::new(ScanValue::U16(7), &regions);
    let mut reads = vec![];
    while let Some((region, addr, size, limit)) = scan.next_read() {
        reads.push((region, addr, size, limit));
        let buf = if addr == 0x1000 { vec![7, 0, 0, 0, 7, 0, 1, 0] } else { vec![0, 0, 7, 0] };
        scan.feed(Some(buf), &[]);
    }
    assert!(scan.is_done());
    assert_eq!(reads, vec![(0, 0x1000, 8, 9), (1, 0x2000, 4, 5)]);
    let found: Vec<u64> = scan.finish().iter().map(|f| f.address).collect();
    assert_eq!(found, vec![0x1000, 0x1004, 0x2002]);
}

#[test]
fn unreadable_chunks_are_skipped() {
    let regions = vec![MemoryRegion { base_address: 0x1000, size: 4 }];
    let mut scan = FirstScan::new(ScanValue::U8(0), &regions);
    scan.feed(None, &[]);
    assert!(scan.is_done());
    assert!(scan.finish().is_empty());
}

fn previous() -> Vec<FoundAddress> {
    vec![
        fa(0x10, ScanValue::U32(5), 5u32.to_le_bytes().to_vec()),
        fa(0x20, ScanValue::U32(5), 5u32.to_le_bytes().to_vec()),
        fa(0x30, ScanValue::U32(5), 5u32.to_le_bytes().to_vec()),
        fa(0x40, ScanValue::U32(5), 5u32.to_le_bytes().to_vec()),
    ]
}

fn reads() -> Vec<Option<Vec<u8>>> {
    vec![
        Some(6u32.to_le_bytes().to_vec()),
        Some(5u32.to_le_bytes().to_vec()),
        None,
        Some(4u32.to_le_bytes().to_vec()),
    ]
}

fn addrs(v: &[FoundAddress]) -> Vec<u64> {
    v.iter().map(|f| f.address).collect()
}

#[test]
fn next_scan_filters() {
    let p = previous();
    let r = reads();
    assert_eq!(addrs(&next_scan(&p, &r, &ScanFilter::Changed, &[])), vec![0x10, 0x40]);
    assert_eq!(addrs(&next_scan(&p, &r, &ScanFilter::Unchanged, &[])), vec![0x20]);
    assert_eq!(addrs(&next_scan(&p, &r, &ScanFilter::Increased, &[])), vec![0x10]);
    assert_eq!(addrs(&next_scan(&p, &r, &ScanFilter::Decreased, &[])), vec![0x40]);
    assert_eq!(addrs(&next_scan(&p, &r, &ScanFilter::ExactValue(ScanValue::U32(6)), &[])), vec![0x10]);
    assert_eq!(addrs(&next_scan(&p, &r, &ScanFilter::GreaterThan(ScanValue::U32(4)), &[])), vec![0x10, 0x20]);
    assert_eq!(addrs(&next_scan(&p, &r, &ScanFilter::LessThan(ScanValue::U32(5)), &[])), vec![0x40]);
    assert!(next_scan(&p, &r, &ScanFilter::IncreasedBy(ScanValue::U32(1)), &[]).is_empty());
    assert!(next_scan(&p, &r, &ScanFilter::DecreasedBy(ScanValue::U32(1)), &[]).is_empty());
    assert!(next_scan(&p, &r, &ScanFilter::Between(ScanValue::U32(0), ScanValue::U32(9)), &[]).is_empty());
}

#[test]
fn next_scan_refreshes_kept_entries() {
    let p = previous();
    let r = reads();
    let out = next_scan(&p, &r, &ScanFilter::Increased, &[]);
    assert_eq!(out[0].previous_bytes, 6u32.to_le_bytes().to_vec());
    assert_eq!(format!("{:?}", out[0].current_value), format!("{:?}", ScanValue::U32(6)));
}

#[test]
fn changed_and_unchanged_split_the_readable_entries() {
    let p = previous();
    let r = reads();
    let c = next_scan(&p, &r, &ScanFilter::Changed, &[]).len();
    let u = next_scan(&p, &r, &ScanFilter::Unchanged, &[]).len();
    assert_eq!(c + u, 3);
}

#[test]
fn greater_than_uses_the_entry_type() {
    let p = previous();
    let r = reads();
    // a threshold of another width is not comparable with the stored type
    assert!(next_scan(&p, &r, &ScanFilter::GreaterThan(ScanValue::U8(1)), &[]).is_empty());
}

#[test]
fn exact_float_filter_uses_decisions() {
    let p = vec![fa(0x10, ScanValue::F32(1.0f32.to_bits()), 1.0f32.to_le_bytes().to_vec())];
    let r = vec![Some(1.0005f32.to_le_bytes().to_vec())];
    let f = ScanFilter::ExactValue(ScanValue::F32(1.0f32.to_bits()));
    assert_eq!(addrs(&next_scan(&p, &r, &f, &[true])), vec![0x10]);
    assert!(next_scan(&p, &r, &f, &[false]).is_empty());
}

#[test]
fn short_reread_keeps_old_value() {
    let p = vec![fa(0x10, ScanValue::U32(5), vec![5, 0, 0, 0])];
    let r = vec![Some(vec![5, 0])];
    let out = next_scan(&p, &r, &ScanFilter::Changed, &[]);
    assert_eq!(out.len(), 1);
    assert_eq!(format!("{:?}", out[0].current_value), format!("{:?}", ScanValue::U32(5)));
    assert_eq!(out[0].previous_bytes, vec![5, 0]);
}

#[test]
fn read_value_uses_type_template() {
    let v = read_value(&[1, 0, 0, 0], &ValueType::I32).unwrap();
    assert_eq!(format!("{:?}", v), format!("{:?}", ScanValue::I32(1)));
    assert!(read_value(&[1, 0], &ValueType::I32).is_none());
    let s = read_value(b"gold", &ValueType::StringUtf8(4)).unwrap();
    assert_eq!(format!("{:?}", s), format!("{:?}", ScanValue::StringUtf8("gold".to_string())));
    let s = read_value(b"goldfish", &ValueType::StringUtf8(4)).unwrap();
    assert_eq!(format!("{:?}", s), format!("{:?}", ScanValue::StringUtf8("gold".to_string())));
    assert!(read_value(b"go", &ValueType::StringUtf8(4)).is_none());
    let w = read_value(&[b'h', 0, b'i', 0, 7], &ValueType::StringUtf16(5)).unwrap();
    assert_eq!(format!("{:?}", w), format!("{:?}", ScanValue::StringUtf16("hi".to_string())));
    let b = read_value(&[9, 8, 7], &ValueType::ByteArray(2)).unwrap();
    assert_eq!(format!("{:?}", b), format!("{:?}", ScanValue::ByteArray(vec![9, 8])));
}

#[test]
fn rescan_reads_each_value_at_its_size() {
    let prev = vec![
        fa(0x10, ScanValue::U32(5), vec![5, 0, 0, 0]),
        fa(0x20, ScanValue::StringUtf8("abc".into()), b"abc".to_vec()),
        fa(0x30, ScanValue::U8(1), vec![1]),
    ];
    assert_eq!(read_requests(&prev), vec![(0x10, 4), (0x20, 3), (0x30, 1)]);
}

#[test]
fn read_outcome_truncates() {
    assert_eq!(read_outcome(vec![1, 2, 3, 4], 2), Some(vec![1, 2]));
    assert_eq!(read_outcome(vec![1, 2, 3, 4], 0), None);
    assert_eq!(read_outcome(vec![1, 2], 9), Some(vec![1, 2]));
    let _ = Comparison::Greater;
}

#[test]
fn written_number_reads_back_as_its_type() {
    let vals = vec![
        ScanValue::I64(-42),
        ScanValue::U32(7),
        ScanValue::F32(3.25f32.to_bits()),
        ScanValue::ByteArray(vec![4, 5, 6]),
    ];
    for v in vals {
        let back = read_value(&v.to_bytes(), &v.value_type()).unwrap();
        assert_eq!(format!("{:?}", back), format!("{:?}", v));
    }
}

#[test]
fn rescanning_unchanged_memory_keeps_all() {
    let mut buf = vec![0u8; 24];
    buf[0..4].copy_from_slice(&77u32.to_le_bytes());
    buf[12..16].copy_from_slice(&77u32.to_le_bytes());
    let target = ScanValue::U32(77);
    let first = scan_buffer(&target, &buf, 0x9000, buf.len() + 1, &[]);
    assert_eq!(addrs(&first), vec![0x9000, 0x900C]);
    let same: Vec<Option<Vec<u8>>> = first.iter().map(|f| Some(f.previous_bytes.clone())).collect();
    assert_eq!(next_scan(&first, &same, &ScanFilter::Unchanged, &[]).len(), 2);
    assert_eq!(next_scan(&first, &same, &ScanFilter::ExactValue(target), &[]).len(), 2);
}

#[test]
fn unchanged_twice_is_unchanged_once() {
    let prev = vec![
        fa(0x10, ScanValue::U32(5), 5u32.to_le_bytes().to_vec()),
        fa(0x20, ScanValue::I16(-2), (-2i16).to_le_bytes().to_vec()),
        fa(0x30, ScanValue::ByteArray(vec![1, 2]), vec![1, 2]),
        fa(0x40, ScanValue::StringUtf8("hey".into()), b"hey".to_vec()),
        fa(0x50, ScanValue::StringUtf16("ab".into()), vec![b'a', 0, b'b', 0]),
    ];
    let memory: Vec<Option<Vec<u8>>> = vec![
        Some(9u32.to_le_bytes().to_vec()),
        Some(7i16.to_le_bytes().to_vec()),
        Some(vec![3, 4]),
        Some(b"hop".to_vec()),
        Some(vec![b'c', 0, b'd', 0]),
    ];
    let r1 = next_scan(&prev, &memory, &ScanFilter::Changed, &[]);
    assert_eq!(r1.len(), 5);
    // memory does not change: reading each result again at its own size gives its bytes
    let again: Vec<Option<Vec<u8>>> = read_requests(&r1)
        .iter()
        .zip(r1.iter())
        .map(|(&(addr, n), f)| {
            assert_eq!(addr, f.address);
            assert_eq!(n, f.previous_bytes.len());
            Some(f.previous_bytes.clone())
        })
        .collect();
    let r2 = next_scan(&r1, &again, &ScanFilter::Unchanged, &[]);
    assert_eq!(format!("{:?}", r2), format!("{:?}", r1));
    let r3 = next_scan(&r2, &again, &ScanFilter::Unchanged, &[]);
    assert_eq!(format!("{:?}", r3), format!("{:?}", r2));
}

#[test]
fn utf16_text_decodes_lossily() {
    // a valid pair, a lone trailing surrogate, a lone leading one before 'A'
    let units: Vec<u16> = vec![0xD83D, 0xDE00, 0xDC00, 0xD800, 0x41];
    let bytes: Vec<u8> = units.iter().flat_map(|u| u.to_le_bytes()).collect();
    let v = read_value(&bytes, &ValueType::StringUtf16(bytes.len())).unwrap();
    assert_eq!(format!("{:?}", v), format!("{:?}", ScanValue::StringUtf16("\u{1F600}\u{FFFD}\u{FFFD}A".to_string())));
}

#[test]
fn invalid_utf8_text_changes_width_on_rescan() {
    // the bytes 0xFF decode to U+FFFD, whose encoding is three bytes long
    let prev = vec![fa(0x10, ScanValue::StringUtf8("a".into()), b"a".to_vec())];
    let r1 = next_scan(&prev, &vec![Some(vec![0xFF])], &ScanFilter::Changed, &[]);
    assert_eq!(r1.len(), 1);
    assert_eq!(read_requests(&r1), vec![(0x10, 3)]);
}

#[test]
fn threshold_filters_compare_as_f64_and_change_filters_exactly() {
    let big = 1u64 << 53;
    let prev = vec![fa(0x10, ScanValue::U64(big), big.to_le_bytes().to_vec())];
    let now: Vec<Option<Vec<u8>>> = vec![Some((big + 1).to_le_bytes().to_vec())];
    // 2^53 + 1 converts to the f64 2^53, which is not greater than 2^53
    assert!(next_scan(&prev, &now, &ScanFilter::GreaterThan(ScanValue::U64(big)), &[]).is_empty());
    assert!(next_scan(&prev, &now, &ScanFilter::LessThan(ScanValue::U64(big)), &[]).is_empty());
    assert_eq!(next_scan(&prev, &now, &ScanFilter::Increased, &[]).len(), 1);
    assert!(next_scan(&prev, &now, &ScanFilter::Decreased, &[]).is_empty());
}

#[test]
fn unchanged_twice_after_partial_reads() {
    let prev = vec![fa(0x10, ScanValue::U32(5), 5u32.to_le_bytes().to_vec())];
    // only two of the four bytes could be read
    let r1 = next_scan(&prev, &vec![Some(vec![9, 0])], &ScanFilter::Changed, &[]);
    assert_eq!(r1.len(), 1);
    assert_eq!(r1[0].previous_bytes, vec![9, 0]);
    let again: Vec<Option<Vec<u8>>> = r1.iter().map(|f| Some(f.previous_bytes.clone())).collect();
    let r2 = next_scan(&r1, &again, &ScanFilter::Unchanged, &[]);
    assert_eq!(format!("{:?}", r2), format!("{:?}", r1));
}
