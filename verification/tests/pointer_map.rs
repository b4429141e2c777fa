use scanflow::pointer_map::{filter_chains_by_anchor, signed_diff, PointerMap};
use scanflow::snapshot::Snapshot;
use scanflow::value_scanner::ValueScanner;
use scanflow::values::parse_input;

fn put_u64(bytes: &mut Vec<u8>, off: usize, v: u64) {
    bytes[off..off + 8].copy_from_slice(&v.to_le_bytes());
}

/// One page spanning 0x10000..0x30008 holding two pointers and a value:
/// [0x10000] -> 0x20000, [0x20000] -> 0x30000, [0x30000] = 42.
fn chain_snapshot() -> Snapshot {
    let base: u64 = 0x10000;
    let mut bytes = vec![0xFFu8; 0x20008];
    put_u64(&mut bytes, 0x0, 0x20000);
    put_u64(&mut bytes, 0x10000, 0x30000);
    put_u64(&mut bytes, 0x20000, 42);
    let mut snap = Snapshot::new();
    snap.push_page(base, bytes);
    snap
}

#[test]
fn pointer_map_records_both_pointers() {
    let snap = chain_snapshot();
    let mut pm = PointerMap::default();
    pm.create_map(&snap, 8);
    assert_eq!(pm.map().as_slice(), &[(0x10000, 0x20000), (0x20000, 0x30000)]);
    assert_eq!(pm.pointers().as_slice(), &[0x10000, 0x20000]);
}

#[test]
fn inverse_map_is_the_transpose() {
    let snap = chain_snapshot();
    let mut pm = PointerMap::default();
    pm.create_map(&snap, 8);
    let inv = pm.inverse_map();
    assert_eq!(inv.len(), 2);
    assert_eq!(inv[0].0, 0x20000);
    assert_eq!(inv[0].1, vec![0x10000]);
    assert_eq!(inv[1].0, 0x30000);
    assert_eq!(inv[1].1, vec![0x20000]);
}

#[test]
fn resolver_emits_the_two_step_chain() {
    let snap = chain_snapshot();

    let (needle, _) = parse_input("i64 42", &None).unwrap();
    let mut scanner = ValueScanner::default();
    scanner.scan_for(&snap, &needle);
    assert_eq!(scanner.matches().as_slice(), &[0x30000]);

    let mut pm = PointerMap::default();
    pm.create_map(&snap, 8);

    let chains = pm.find_matches((0, 0), 2, scanner.matches());
    assert!(chains.contains(&(0x30000, vec![(0x20000, 0), (0x30000, 0)])));
}

#[test]
fn resolver_reaches_the_root_anchor_at_depth_three() {
    let snap = chain_snapshot();
    let mut pm = PointerMap::default();
    pm.create_map(&snap, 8);

    let chains = pm.find_matches((0, 0), 3, &vec![0x30000]);
    assert!(chains.contains(&(0x30000, vec![(0x10000, 0), (0x20000, 0), (0x30000, 0)])));
}

#[test]
fn resolver_offsets_stay_in_window() {
    let snap = chain_snapshot();
    let mut pm = PointerMap::default();
    pm.create_map(&snap, 8);
    let chains = pm.find_matches((16, 16), 3, &vec![0x30000]);
    for (_, steps) in &chains {
        for &(_, off) in steps {
            assert!(-16 <= off && off <= 16);
        }
    }
}

#[test]
fn tie_break_prefers_the_positive_offset() {
    let n: u64 = 0x5000;
    let pm = PointerMap::default();
    let anchors = vec![n - 4, n + 4];
    let chains = pm.find_matches_addrs((4, 4), 1, &vec![n], &anchors);
    assert_eq!(chains, vec![(n, vec![(n - 4, 4)])]);
}

#[test]
fn filter_keeps_only_the_requested_root() {
    let chains = vec![
        (0x30000u64, vec![(0xdeadbeefu64, 0i64), (0x30000, 0)]),
        (0x30000, vec![(0x20000, 4), (0x30000, 0)]),
        (0x40000, vec![(0xdeadbeef, -8)]),
        (0x50000, vec![]),
    ];
    let kept = filter_chains_by_anchor(&chains, 0xdeadbeef);
    assert_eq!(
        kept,
        vec![
            (0x30000u64, vec![(0xdeadbeefu64, 0i64), (0x30000, 0)]),
            (0x40000, vec![(0xdeadbeef, -8)]),
        ]
    );
}

#[test]
fn signed_diff_matches_expectations() {
    assert_eq!(signed_diff(10, 3), 7);
    assert_eq!(signed_diff(3, 10), -7);
    assert_eq!(signed_diff(5, 5), 0);
    assert_eq!(signed_diff(u64::MAX, 0), i64::MAX);
    assert_eq!(signed_diff(0, u64::MAX), i64::MIN);
    assert_eq!(signed_diff(0, 0x8000_0000_0000_0000), i64::MIN);
    assert_eq!(signed_diff(0x8000_0000_0000_0000, 0), i64::MAX);
}
