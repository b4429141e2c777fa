use scanflow::snapshot::Snapshot;
use scanflow::value_scanner::ValueScanner;
use scanflow::values::parse_input;

fn page_of(base: u64, len: usize, fill: u8) -> (u64, Vec<u8>) {
    (base, vec![fill; len])
}

fn put_i64(bytes: &mut Vec<u8>, off: usize, v: i64) {
    bytes[off..off + 8].copy_from_slice(&v.to_le_bytes());
}

#[test]
fn first_scan_finds_both_live_addresses() {
    let (base, mut bytes) = page_of(0x1000, 0x200, 0xAA);
    let a1: usize = 0x40;
    let a2: usize = 0x120;
    put_i64(&mut bytes, a1, 122);
    put_i64(&mut bytes, a2, 122);
    let mut snap = Snapshot::new();
    snap.push_page(base, bytes);

    let (needle, t) = parse_input("i64 122", &None).expect("couldn't encode i64 122");
    assert_eq!(t, "i64");
    let mut scanner = ValueScanner::default();
    scanner.scan_for(&snap, &needle);
    assert_eq!(scanner.matches().as_slice(), &[base + a1 as u64, base + a2 as u64]);
}

#[test]
fn narrowing_scan_keeps_only_still_matching() {
    let (base, mut bytes) = page_of(0x1000, 0x200, 0xAA);
    let a1: usize = 0x40;
    let a2: usize = 0x120;
    put_i64(&mut bytes, a1, 122);
    put_i64(&mut bytes, a2, 122);
    let mut snap = Snapshot::new();
    snap.push_page(base, bytes);

    let (needle, t) = parse_input("i64 122", &None).unwrap();
    let mut scanner = ValueScanner::default();
    scanner.scan_for(&snap, &needle);
    assert_eq!(scanner.matches().len(), 2);

    // The target advances: the first address now holds 123, the second
    // something else entirely.
    assert!(snap.write(base + a1 as u64, &123i64.to_le_bytes()));
    assert!(snap.write(base + a2 as u64, &999i64.to_le_bytes()));

    let (needle2, _) = parse_input("123", &Some(t)).unwrap();
    scanner.scan_for(&snap, &needle2);
    assert_eq!(scanner.matches().as_slice(), &[base + a1 as u64]);

    scanner.reset();
    assert!(scanner.matches().is_empty());
}

#[test]
fn rescan_with_same_needle_is_idempotent() {
    let (base, mut bytes) = page_of(0x2000, 0x100, 0x00);
    put_i64(&mut bytes, 0x10, 7777);
    let mut snap = Snapshot::new();
    snap.push_page(base, bytes);

    let (needle, _) = parse_input("i64 7777", &None).unwrap();
    let mut scanner = ValueScanner::default();
    scanner.scan_for(&snap, &needle);
    let first: Vec<u64> = scanner.matches().clone();
    scanner.scan_for(&snap, &needle);
    assert_eq!(scanner.matches(), &first);
}

#[test]
fn narrowing_never_grows_the_match_set() {
    let (base, mut bytes) = page_of(0x3000, 0x100, 0x11);
    put_i64(&mut bytes, 0x20, 5);
    put_i64(&mut bytes, 0x60, 5);
    let mut snap = Snapshot::new();
    snap.push_page(base, bytes);

    let (needle, t) = parse_input("i64 5", &None).unwrap();
    let mut scanner = ValueScanner::default();
    scanner.scan_for(&snap, &needle);
    let before: Vec<u64> = scanner.matches().clone();
    // Memory unchanged but searched for a different value: the narrowed
    // set is a subset of the previous one.
    let (other, _) = parse_input("6", &Some(t)).unwrap();
    scanner.scan_for(&snap, &other);
    for m in scanner.matches() {
        assert!(before.contains(m));
    }
    assert!(scanner.matches().is_empty());
}

#[test]
fn string_scan_finds_utf8_bytes() {
    let text = "There is nothing here!!!!";
    let (base, mut bytes) = page_of(0x4000, 0x100, b'x');
    let a: usize = 0x30;
    bytes[a..a + text.len()].copy_from_slice(text.as_bytes());
    let mut snap = Snapshot::new();
    snap.push_page(base, bytes);

    let (needle, t) = parse_input(&format!("str {}", text), &None).unwrap();
    assert_eq!(t, "str");
    assert_eq!(needle, text.as_bytes());
    let mut scanner = ValueScanner::default();
    scanner.scan_for(&snap, &needle);
    assert!(scanner.matches().contains(&(base + a as u64)));
}

#[test]
fn write_replaces_bytes_in_place() {
    let text = "There is nothing here!!!!";
    let replacement = "Hello world from memflow!";
    let (base, mut bytes) = page_of(0x4000, 0x100, b'x');
    let a: usize = 0x30;
    bytes[a..a + text.len()].copy_from_slice(text.as_bytes());
    let mut snap = Snapshot::new();
    snap.push_page(base, bytes);

    let (needle, _) = parse_input(&format!("str {}", text), &None).unwrap();
    let mut scanner = ValueScanner::default();
    scanner.scan_for(&snap, &needle);
    let m = scanner.matches()[0];

    assert!(snap.write(m, replacement.as_bytes()));
    let back = snap.read_padded(m, replacement.len());
    assert_eq!(back, replacement.as_bytes());
}

#[test]
fn scan_covers_page_map_caching() {
    let (b1, mut p1) = page_of(0x1000, 0x80, 0);
    let (b2, mut p2) = page_of(0x9000, 0x80, 0);
    put_i64(&mut p1, 0x10, 4242);
    put_i64(&mut p2, 0x18, 4242);
    let mut snap = Snapshot::new();
    snap.push_page(b1, p1);
    snap.push_page(b2, p2);

    let (needle, _) = parse_input("i64 4242", &None).unwrap();
    let mut scanner = ValueScanner::default();
    scanner.scan_for(&snap, &needle);
    assert_eq!(scanner.matches().as_slice(), &[0x1010, 0x9018]);
}
