use scanflow::snapshot::Snapshot;

#[test]
fn coalesce_merges_ranges_closer_than_the_gap() {
    // Gap 0x100: the first two ranges are 0x80 apart and merge (the hole
    // included); the third lies 0x1000 further and stays separate.
    let ranges = vec![(0x1000u64, 0x100u64), (0x1180, 0x80), (0x2200, 0x100)];
    let out = Snapshot::coalesce(&ranges, 0x100);
    assert_eq!(out, vec![(0x1000, 0x200), (0x2200, 0x100)]);
}

#[test]
fn coalesced_ranges_are_separated_by_at_least_the_gap() {
    let ranges = vec![
        (0x1000u64, 0x10u64),
        (0x1020, 0x10),
        (0x1040, 0x10),
        (0x5000, 0x10),
        (0x5018, 0x10),
        (0x9000, 0x10),
    ];
    let gap: u64 = 0x40;
    let out = Snapshot::coalesce(&ranges, gap);
    for w in out.windows(2) {
        let (a, l) = w[0];
        let (b, _) = w[1];
        assert!(b - (a + l) >= gap);
    }
    assert_eq!(out.len(), 3);
}

#[test]
fn zero_gap_keeps_everything_separate() {
    let ranges = vec![(0x1000u64, 0x100u64), (0x1100, 0x100)];
    let out = Snapshot::coalesce(&ranges, 0);
    assert_eq!(out, ranges);
}

#[test]
fn reads_pad_unmapped_holes_with_zeros() {
    let mut snap = Snapshot::new();
    snap.push_page(0x1000, vec![0xAB; 0x10]);
    snap.push_page(0x2000, vec![0xCD; 0x10]);
    let b = snap.read_padded(0x100F, 4);
    assert_eq!(b, vec![0xAB, 0, 0, 0]);
    let b = snap.read_padded(0x1FFE, 4);
    assert_eq!(b, vec![0, 0, 0xCD, 0xCD]);
}

#[test]
fn writes_outside_mapped_ranges_fail() {
    let mut snap = Snapshot::new();
    snap.push_page(0x1000, vec![0u8; 0x10]);
    assert!(snap.write(0x1008, &[1, 2]));
    assert!(!snap.write(0x100F, &[3, 4]));
    // The mapped byte was still written; the unmapped one was skipped.
    assert_eq!(snap.read_padded(0x1008, 2), vec![1, 2]);
    assert_eq!(snap.read_padded(0x100F, 1), vec![3]);
}
