//! The full offset-scan flow against a synthetic target: a module whose
//! code references a global pointer, which in turn points at the scanned
//! value.
use scanflow::disasm::Disasm;
use scanflow::pointer_map::{filter_chains_by_anchor, PointerMap};
use scanflow::snapshot::Snapshot;
use scanflow::value_scanner::ValueScanner;
use scanflow::values::{parse_input, parse_offset_scan_args};

/// Builds a minimal valid PE32+ image with a single executable section.
fn build_pe64_image(section_va: u32, section_vsize: u32) -> Vec<u8> {
    let mut img = vec![0u8; 0x400];
    img[0] = b'M';
    img[1] = b'Z';
    img[0x3c..0x40].copy_from_slice(&0x40u32.to_le_bytes());
    img[0x40..0x44].copy_from_slice(&0x0000_4550u32.to_le_bytes());
    img[0x44..0x46].copy_from_slice(&0x8664u16.to_le_bytes());
    img[0x46..0x48].copy_from_slice(&1u16.to_le_bytes());
    img[0x54..0x56].copy_from_slice(&0xF0u16.to_le_bytes());
    img[0x58..0x5a].copy_from_slice(&0x20Bu16.to_le_bytes());
    img[0x90..0x94].copy_from_slice(&0x4000u32.to_le_bytes());
    img[0x94..0x98].copy_from_slice(&0x400u32.to_le_bytes());
    img[0xC4..0xC8].copy_from_slice(&16u32.to_le_bytes());
    let sh = 0x148;
    img[sh..sh + 5].copy_from_slice(b".text");
    img[sh + 8..sh + 12].copy_from_slice(&section_vsize.to_le_bytes());
    img[sh + 12..sh + 16].copy_from_slice(&section_va.to_le_bytes());
    img[sh + 36..sh + 40].copy_from_slice(&0x6000_0020u32.to_le_bytes());
    img
}

#[test]
fn offset_scan_from_code_anchor_to_scanned_value() {
    let base: u64 = 0x1400_0000;
    let data: u64 = 0x5000_0000;

    // Module page: image header, then a code section at base+0x1000 whose
    // first instruction is `mov rax, [rip+0x10]`, referencing the global
    // slot at base+0x1017; that slot holds a pointer to the data page.
    let sec_len: usize = 0x28;
    let img = build_pe64_image(0x1000, sec_len as u32);
    let mut page1 = vec![0x90u8; 0x1000 + sec_len];
    page1[..img.len()].copy_from_slice(&img);
    page1[0x1000..0x1007].copy_from_slice(&[0x48, 0x8B, 0x05, 0x10, 0x00, 0x00, 0x00]);
    page1[0x1017..0x101F].copy_from_slice(&data.to_le_bytes());

    // Data page: the value the analyst scans for.
    let mut page2 = vec![0u8; 0x100];
    page2[..8].copy_from_slice(&7777i64.to_le_bytes());

    let mut snap = Snapshot::new();
    snap.push_page(base, page1);
    snap.push_page(data, page2);

    // Scan narrows the target down to the data page.
    let (needle, _) = parse_input("i64 7777", &None).unwrap();
    let mut scanner = ValueScanner::default();
    scanner.scan_for(&snap, &needle);
    assert_eq!(scanner.matches().as_slice(), &[data]);

    // The pointer map finds the one pointer: the global slot.
    let mut pm = PointerMap::default();
    pm.create_map(&snap, 8);
    assert_eq!(pm.map().as_slice(), &[(base + 0x1017, data)]);

    // The extractor finds the one code-referenced global: the same slot.
    let mut disasm = Disasm::default();
    disasm.collect_globals(&snap, &vec![base], 64).unwrap();
    let anchors = disasm.globals();
    assert_eq!(anchors, vec![base + 0x1017]);

    // The resolver connects the global slot to the scanned value.
    let args = parse_offset_scan_args("y 0 0 2").unwrap();
    assert!(args.use_globals);
    let chains = pm.find_matches_addrs(
        (args.lrange, args.urange),
        args.max_depth,
        scanner.matches(),
        &anchors,
    );
    assert_eq!(chains, vec![(data, vec![(base + 0x1017, 0), (data, 0)])]);

    // Filtering by the root anchor keeps the chain; filtering by another
    // address drops it.
    assert_eq!(filter_chains_by_anchor(&chains, base + 0x1017), chains);
    assert!(filter_chains_by_anchor(&chains, 0xdeadbeef).is_empty());
}
