use scanflow::disasm::Disasm;
use scanflow::error::Error;
use scanflow::snapshot::Snapshot;

/// Builds a minimal valid PE32+ image with a single section.
fn build_pe64_image(section_va: u32, section_vsize: u32, characteristics: u32) -> Vec<u8> {
    let mut img = vec![0u8; 0x400];
    img[0] = b'M';
    img[1] = b'Z';
    img[0x3c..0x40].copy_from_slice(&0x40u32.to_le_bytes());
    // NT signature
    img[0x40..0x44].copy_from_slice(&0x0000_4550u32.to_le_bytes());
    // File header: machine, one section, optional-header size
    img[0x44..0x46].copy_from_slice(&0x8664u16.to_le_bytes());
    img[0x46..0x48].copy_from_slice(&1u16.to_le_bytes());
    img[0x54..0x56].copy_from_slice(&0xF0u16.to_le_bytes());
    // Optional header: PE32+ magic, SizeOfImage, SizeOfHeaders, rva count
    img[0x58..0x5a].copy_from_slice(&0x20Bu16.to_le_bytes());
    img[0x90..0x94].copy_from_slice(&0x4000u32.to_le_bytes());
    img[0x94..0x98].copy_from_slice(&0x400u32.to_le_bytes());
    img[0xC4..0xC8].copy_from_slice(&16u32.to_le_bytes());
    // Section header
    let sh = 0x148;
    img[sh..sh + 5].copy_from_slice(b".text");
    img[sh + 8..sh + 12].copy_from_slice(&section_vsize.to_le_bytes());
    img[sh + 12..sh + 16].copy_from_slice(&section_va.to_le_bytes());
    img[sh + 36..sh + 40].copy_from_slice(&characteristics.to_le_bytes());
    img
}

fn module_snapshot(base: u64, code: &[u8]) -> Snapshot {
    let img = build_pe64_image(0x1000, code.len() as u32, 0x6000_0020);
    let mut bytes = vec![0x90u8; 0x1000 + code.len()];
    bytes[..img.len()].copy_from_slice(&img);
    // NOP padding between the headers and the section keeps the decoder
    // free of stray IP-relative references.
    bytes[0x1000..0x1000 + code.len()].copy_from_slice(code);
    let mut snap = Snapshot::new();
    snap.push_page(base, bytes);
    snap
}

#[test]
fn single_ip_relative_mov_yields_one_entry() {
    let base: u64 = 0x14000_0000;
    // mov rax, [rip + 0x10]
    let code = [0x48u8, 0x8B, 0x05, 0x10, 0x00, 0x00, 0x00, 0x90, 0x90, 0x90, 0x90, 0x90, 0x90,
        0x90, 0x90, 0x90];
    let snap = module_snapshot(base, &code);

    let mut disasm = Disasm::default();
    disasm.collect_globals(&snap, &vec![base], 64).unwrap();

    // The instruction at base+0x1000 is 7 bytes long; its datum lies 0x10
    // past the next instruction.
    assert_eq!(disasm.map().as_slice(), &[(base + 0x1000, base + 0x1000 + 7 + 0x10)]);
}

#[test]
fn globals_lists_the_referenced_addresses() {
    let base: u64 = 0x14000_0000;
    // Two instructions referencing the same datum, one a different one:
    // the anchor list holds each referenced address once, ascending.
    let code = [
        0x48u8, 0x8B, 0x05, 0x10, 0x00, 0x00, 0x00, // mov rax, [rip+0x10]
        0x48, 0x8B, 0x0D, 0x09, 0x00, 0x00, 0x00, // mov rcx, [rip+0x09]
        0x48, 0x8B, 0x15, 0x22, 0x00, 0x00, 0x00, // mov rdx, [rip+0x22]
        0x90, 0x90, 0x90,
    ];
    let snap = module_snapshot(base, &code);
    let mut disasm = Disasm::default();
    disasm.collect_globals(&snap, &vec![base], 64).unwrap();
    // First and second instructions both resolve to base+0x1017.
    let g = disasm.globals();
    assert_eq!(g, vec![base + 0x1017, base + 0x1037]);
}

#[test]
fn direct_branches_are_not_recorded() {
    let base: u64 = 0x14000_0000;
    // call rel32, then jmp rel8: branches, no IP-relative memory operand.
    let code = [0xE8u8, 0x10, 0x00, 0x00, 0x00, 0xEB, 0x02, 0x90, 0x90, 0x90];
    let snap = module_snapshot(base, &code);

    let mut disasm = Disasm::default();
    disasm.collect_globals(&snap, &vec![base], 64).unwrap();
    assert!(disasm.map().is_empty());
}

#[test]
fn non_code_sections_are_skipped() {
    let base: u64 = 0x14000_0000;
    let code = [0x48u8, 0x8B, 0x05, 0x10, 0x00, 0x00, 0x00, 0x90];
    let img = build_pe64_image(0x1000, code.len() as u32, 0x4000_0040);  // no code flag
    let mut bytes = vec![0x90u8; 0x1000 + code.len()];
    bytes[..img.len()].copy_from_slice(&img);
    bytes[0x1000..0x1000 + code.len()].copy_from_slice(&code);
    let mut snap = Snapshot::new();
    snap.push_page(base, bytes);

    let mut disasm = Disasm::default();
    disasm.collect_globals(&snap, &vec![base], 64).unwrap();
    assert!(disasm.map().is_empty());
}

#[test]
fn unparseable_module_is_skipped() {
    let base: u64 = 0x7000_0000;
    let mut snap = Snapshot::new();
    snap.push_page(base, vec![0u8; 0x100]);
    let mut disasm = Disasm::default();
    assert!(disasm.collect_globals(&snap, &vec![base], 64).is_ok());
    assert!(disasm.map().is_empty());
}

#[test]
fn bad_bitness_is_a_decoder_error() {
    let snap = Snapshot::new();
    let mut disasm = Disasm::default();
    let r = disasm.collect_globals(&snap, &vec![], 16);
    assert_eq!(r, Err(Error::DecoderInit));
}

#[test]
fn reset_clears_the_map() {
    let base: u64 = 0x14000_0000;
    let code = [0x48u8, 0x8B, 0x05, 0x10, 0x00, 0x00, 0x00, 0x90];
    let snap = module_snapshot(base, &code);
    let mut disasm = Disasm::default();
    disasm.collect_globals(&snap, &vec![base], 64).unwrap();
    assert!(!disasm.map().is_empty());
    disasm.reset();
    assert!(disasm.map().is_empty());
}
