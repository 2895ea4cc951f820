use open_depacker::amiga::{
    m68k_read_disassembler_16, m68k_read_disassembler_32, m68k_read_disassembler_8,
    m68k_read_memory_16, m68k_read_memory_32, m68k_read_memory_8, m68k_write_memory_16,
    m68k_write_memory_32, m68k_write_memory_8, Amiga, LoadError, EXE_START, MEMORY_SIZE,
};
use open_depacker::hunk::{Hunk, HunkType, MemoryType, RelocInfo32};
use open_depacker::musashi::Musashi;

fn words(ws: &[u32]) -> Vec<u8> {
    let mut out = Vec::new();
    for w in ws {
        out.extend_from_slice(&w.to_be_bytes());
    }
    out
}

fn hunk(hunk_type: HunkType, data: Option<Vec<u8>>, size: usize) -> Hunk {
    Hunk {
        mem_type: MemoryType::Any,
        hunk_type,
        alloc_size: size,
        data_size: size,
        code_data: data,
        reloc_32: None,
        memory_offset: 0,
    }
}

#[test]
fn new_machine_has_zeroed_memory() {
    let a = Amiga::new();
    assert_eq!(a.dummy, 0);
    assert_eq!(a.memory.len(), MEMORY_SIZE);
    assert!(a.memory.iter().all(|b| *b == 0));
    Musashi::init();
}

#[test]
fn long_words_are_big_endian() {
    let mut a = Amiga::new();
    a.set_amiga_memory_long(16, 0x1234_5678);
    assert_eq!(&a.memory[16..20], &[0x12, 0x34, 0x56, 0x78]);
    assert_eq!(a.get_amiga_memory_long(16), 0x1234_5678);
    assert_eq!(a.get_amiga_memory_long(17), 0x3456_7800);
}

#[test]
fn core_reads_what_it_writes() {
    let mut a = Amiga::new();
    m68k_write_memory_32(&mut a, 100, 0xdead_beef);
    assert_eq!(m68k_read_memory_32(&a, 100), 0xdead_beef);
    assert_eq!(m68k_read_memory_16(&a, 100), 0xdead);
    assert_eq!(m68k_read_memory_8(&a, 103), 0xef);
    m68k_write_memory_16(&mut a, 200, 0x1_abcd);
    assert_eq!(m68k_read_memory_16(&a, 200), 0xabcd);
    assert_eq!(m68k_read_memory_8(&a, 202), 0);
    m68k_write_memory_8(&mut a, 300, 0x1ff);
    assert_eq!(m68k_read_memory_8(&a, 300), 0xff);
    assert_eq!(m68k_read_memory_8(&a, 301), 0);
    assert_eq!(m68k_read_disassembler_32(&a, 100), 0xdead_beef);
    assert_eq!(m68k_read_disassembler_16(&a, 102), 0xbeef);
    assert_eq!(m68k_read_disassembler_8(&a, 100), 0xde);
    m68k_write_memory_32(&mut a, (MEMORY_SIZE - 4) as u32, 7);
    assert_eq!(m68k_read_memory_32(&a, (MEMORY_SIZE - 4) as u32), 7);
}

#[test]
fn copy_and_clear() {
    let mut dest = vec![9u8; 8];
    Amiga::copy_data(&[1, 2, 3, 4], &mut dest, 2, 3);
    assert_eq!(dest, vec![9, 9, 1, 2, 3, 9, 9, 9]);
    Amiga::clear_memory(&mut dest, 1, 3);
    assert_eq!(dest, vec![9, 0, 0, 0, 3, 9, 9, 9]);
}

#[test]
fn code_hunks_are_placed_one_after_the_other() {
    let mut a = Amiga::new();
    let mut hunks = vec![
        hunk(HunkType::Code, Some(vec![1, 2, 3, 4]), 4),
        hunk(HunkType::Data, Some(vec![5, 6]), 2),
        hunk(HunkType::Code, Some(vec![7, 8]), 2),
    ];
    let end = a.load_code_data(&mut hunks, HunkType::Code, 1000);
    assert_eq!(end, 1006);
    assert_eq!(hunks[0].memory_offset, 1000);
    assert_eq!(hunks[1].memory_offset, 0);
    assert_eq!(hunks[2].memory_offset, 1004);
    assert_eq!(&a.memory[1000..1007], &[1, 2, 3, 4, 7, 8, 0]);
}

#[test]
fn loads_and_relocates_parsed_executable() {
    let mut image = words(&[1011, 0, 2, 0, 1, 2, 1, 1001, 2]);
    image.extend_from_slice(&[0x4e, 0x75, 0, 0, 0, 0, 0, 3]);
    image.extend_from_slice(&words(&[1004, 1, 1, 4, 0, 1010]));
    image.extend_from_slice(&words(&[1002, 1, 0xaabb_ccdd, 1010]));
    let mut hunks = Amiga::parse_executable(&image).unwrap();
    let mut a = Amiga::new();
    let (code_end, data_end, bss_end) = a.load_to_memory(&mut hunks).unwrap();
    assert_eq!(code_end, EXE_START + 8);
    assert_eq!(data_end, EXE_START + 12);
    assert_eq!(bss_end, EXE_START + 12);
    assert_eq!(hunks[0].memory_offset, EXE_START);
    assert_eq!(hunks[1].memory_offset, EXE_START + 8);
    // the long word at offset 4 of the code now holds the data hunk's address plus 3
    assert_eq!(a.get_amiga_memory_long((EXE_START + 4) as u32), (EXE_START + 8 + 3) as u32);
    assert_eq!(a.get_amiga_memory_long(EXE_START as u32), 0x4e75_0000);
    assert_eq!(a.get_amiga_memory_long((EXE_START + 8) as u32), 0xaabb_ccdd);
}

#[test]
fn bss_with_section_bytes_is_cleared() {
    let mut a = Amiga::new();
    a.set_amiga_memory_long(EXE_START as u32, 0xffff_ffff);
    // a block with code then bss leaves a bss hunk that still holds section bytes
    let mut hunks = vec![hunk(HunkType::Bss, Some(vec![1]), 4), hunk(HunkType::Bss, None, 8)];
    let ends = a.load_to_memory(&mut hunks).unwrap();
    assert_eq!(ends, (EXE_START, EXE_START, EXE_START + 4));
    assert_eq!(a.get_amiga_memory_long(EXE_START as u32), 0);
    assert_eq!(hunks[1].memory_offset, EXE_START + 4);
}

#[test]
fn too_large_executable_does_not_fit() {
    let mut a = Amiga::new();
    let mut hunks = vec![hunk(HunkType::Code, Some(vec![0; MEMORY_SIZE]), MEMORY_SIZE)];
    assert_eq!(a.load_to_memory(&mut hunks), Err(LoadError::OutOfMemory));
    assert_eq!(hunks[0].memory_offset, 0);
}

#[test]
fn relocation_against_missing_hunk_fails() {
    let mut a = Amiga::new();
    let mut h = hunk(HunkType::Code, Some(vec![0; 8]), 8);
    h.reloc_32 = Some(vec![RelocInfo32 { target: 5, data: vec![0] }]);
    let mut hunks = vec![h];
    assert_eq!(a.load_to_memory(&mut hunks), Err(LoadError::BadRelocTarget));
}

#[test]
fn relocation_outside_memory_fails() {
    let mut a = Amiga::new();
    let mut h = hunk(HunkType::Code, Some(vec![0; 8]), 8);
    h.reloc_32 = Some(vec![RelocInfo32 { target: 0, data: vec![(MEMORY_SIZE - EXE_START - 2) as u32] }]);
    let mut hunks = vec![h];
    assert_eq!(a.load_to_memory(&mut hunks), Err(LoadError::RelocOutOfRange));
    let mut h = hunk(HunkType::Code, Some(vec![0; 8]), 8);
    h.reloc_32 = Some(vec![RelocInfo32 { target: 0, data: vec![0xffff_ffff] }]);
    let mut hunks = vec![h];
    assert_eq!(a.load_to_memory(&mut hunks), Err(LoadError::AddressOverflow));
}

#[test]
fn relocation_overflowing_the_word_fails() {
    let mut a = Amiga::new();
    let mut h = hunk(HunkType::Code, Some(vec![0xff, 0xff, 0xff, 0xff]), 4);
    h.reloc_32 = Some(vec![RelocInfo32 { target: 0, data: vec![0] }]);
    let mut hunks = vec![h];
    assert_eq!(a.load_to_memory(&mut hunks), Err(LoadError::AddressOverflow));
}

#[test]
fn reloc_hunk_adds_target_address() {
    let mut a = Amiga::new();
    a.set_amiga_memory_long(1000, 10);
    let mut target = hunk(HunkType::Data, Some(vec![]), 0);
    target.memory_offset = 5000;
    let mut h = hunk(HunkType::Code, Some(vec![0; 4]), 4);
    h.memory_offset = 1000;
    h.reloc_32 = Some(vec![RelocInfo32 { target: 1, data: vec![0] }]);
    let hunks = vec![hunk(HunkType::Code, None, 0), target];
    assert_eq!(a.reloc_hunk(&h, &hunks), Ok(()));
    assert_eq!(a.get_amiga_memory_long(1000), 5010);
    assert_eq!(a.reloc_code_data(&hunks), Ok(()));
    assert_eq!(Amiga::placement_end(&hunks, HunkType::Data, 10), Some(10));
}

#[test]
fn code_hunk_without_section_bytes_takes_no_room() {
    let mut a = Amiga::new();
    let mut hunks = vec![
        hunk(HunkType::Code, None, 12),
        hunk(HunkType::Code, Some(vec![1, 2, 3, 4]), 4),
    ];
    let ends = a.load_to_memory(&mut hunks).unwrap();
    assert_eq!(ends, (EXE_START + 4, EXE_START + 4, EXE_START + 4));
    assert_eq!(hunks[0].memory_offset, EXE_START);
    assert_eq!(hunks[1].memory_offset, EXE_START);
    assert_eq!(a.get_amiga_memory_long(EXE_START as u32), 0x0102_0304);
}
