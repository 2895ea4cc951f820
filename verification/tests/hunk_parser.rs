use open_depacker::hunk::{HunkError, HunkParser, HunkReader, HunkType, MemoryType};

fn words(ws: &[u32]) -> Vec<u8> {
    let mut out = Vec::new();
    for w in ws {
        out.extend_from_slice(&w.to_be_bytes());
    }
    out
}

/// A one-hunk executable: 8 bytes of code in chip memory with one relocation
/// of the long word at offset 4 against hunk 0.
fn small_executable() -> Vec<u8> {
    let mut image = words(&[1011, 0, 1, 0, 0, 0x4000_0002, 1001, 0x4000_0002]);
    image.extend_from_slice(&[1, 2, 3, 4, 0, 0, 0, 16]);
    image.extend_from_slice(&words(&[1004, 1, 0, 4, 0, 1010]));
    image
}

#[test]
fn size_type_splits_size_and_memory() {
    assert_eq!(HunkParser::get_size_type(0x4000_0002), (8, MemoryType::Chip));
    assert_eq!(HunkParser::get_size_type(0x8000_0003), (12, MemoryType::Fast));
    assert_eq!(HunkParser::get_size_type(0xc000_0001), (4, MemoryType::Any));
    assert_eq!(HunkParser::get_size_type(0x0fff_ffff), (0x3fff_fffc, MemoryType::Any));
    assert_eq!(HunkParser::get_size_type(0), (0, MemoryType::Any));
}

#[test]
fn parses_code_hunk_with_relocation() {
    let hunks = HunkParser::parse_bytes(&small_executable()).unwrap();
    assert_eq!(hunks.len(), 1);
    let h = &hunks[0];
    assert_eq!(h.hunk_type, HunkType::Code);
    assert_eq!(h.mem_type, MemoryType::Chip);
    assert_eq!(h.alloc_size, 8);
    assert_eq!(h.data_size, 8);
    assert_eq!(h.code_data.as_ref().unwrap(), &vec![1, 2, 3, 4, 0, 0, 0, 16]);
    let relocs = h.reloc_32.as_ref().unwrap();
    assert_eq!(relocs.len(), 1);
    assert_eq!(relocs[0].target, 0);
    assert_eq!(relocs[0].data, vec![4]);
    assert_eq!(h.memory_offset, 0);
}

#[test]
fn parses_data_and_bss_hunks_and_skips_names_and_symbols() {
    let mut image = words(&[1011, 0, 2, 3, 4, 1, 0x8000_0004]);
    // hunk 0: a name of 4 bytes, data of one long word, end
    image.extend_from_slice(&words(&[1000, 4, 0x4142_4344, 1002, 1, 7, 1010]));
    // hunk 1: a symbol table with one 1-long-word name, bss of 4 long words, debug, end
    image.extend_from_slice(&words(&[1008, 1, 0x5858_5858, 99, 0, 1003, 0x8000_0004, 1009, 0, 1010]));
    let hunks = HunkParser::parse_bytes(&image).unwrap();
    assert_eq!(hunks.len(), 2);
    assert_eq!(hunks[0].hunk_type, HunkType::Data);
    assert_eq!(hunks[0].data_size, 4);
    assert_eq!(hunks[0].alloc_size, 4);
    assert_eq!(hunks[0].code_data.as_ref().unwrap(), &vec![0, 0, 0, 7]);
    assert!(hunks[0].reloc_32.is_none());
    assert_eq!(hunks[1].hunk_type, HunkType::Bss);
    assert_eq!(hunks[1].mem_type, MemoryType::Fast);
    assert_eq!(hunks[1].data_size, 16);
    assert_eq!(hunks[1].alloc_size, 16);
    assert!(hunks[1].code_data.is_none());
}

#[test]
fn empty_hunk_range_gives_no_hunks() {
    let image = words(&[1011, 0, 0, 5, 4]);
    assert_eq!(HunkParser::parse_bytes(&image).unwrap().len(), 0);
}

#[test]
fn rejects_wrong_header() {
    let image = words(&[1010, 0, 0, 0, 0]);
    assert_eq!(HunkParser::parse_bytes(&image).err(), Some(HunkError::InvalidHeader));
}

#[test]
fn rejects_truncated_header() {
    assert_eq!(HunkParser::parse_bytes(&[0, 0, 3]).err(), Some(HunkError::UnexpectedEof));
    let image = words(&[1011, 0, 1]);
    assert_eq!(HunkParser::parse_bytes(&image).err(), Some(HunkError::UnexpectedEof));
}

#[test]
fn rejects_negative_sizes() {
    let image = words(&[1011, 0, 0x8000_0000, 0, 0]);
    assert_eq!(HunkParser::parse_bytes(&image).err(), Some(HunkError::InvalidSizes));
    let image = words(&[1011, 0, 1, 0, 0xffff_ffff]);
    assert_eq!(HunkParser::parse_bytes(&image).err(), Some(HunkError::InvalidSizes));
}

#[test]
fn rejects_bad_hunk_range() {
    let image = words(&[1011, 0, 1, 5, 2]);
    assert_eq!(HunkParser::parse_bytes(&image).err(), Some(HunkError::InvalidHunkRange));
    let image = words(&[1011, 0, 1, 0, 0x7fff_ffff]);
    assert_eq!(HunkParser::parse_bytes(&image).err(), Some(HunkError::InvalidHunkRange));
}

#[test]
fn rejects_unknown_hunk_tag() {
    let image = words(&[1011, 0, 1, 0, 0, 1, 1234]);
    assert_eq!(HunkParser::parse_bytes(&image).err(), Some(HunkError::UnsupportedHunk));
}

#[test]
fn rejects_oversized_symbol() {
    let image = words(&[1011, 0, 1, 0, 0, 1, 1008, 0x4000_0000]);
    assert_eq!(HunkParser::parse_bytes(&image).err(), Some(HunkError::SizeOverflow));
    let image = words(&[1011, 0, 1, 0, 0, 1, 1008, 0x3fff_ffff]);
    assert_eq!(HunkParser::parse_bytes(&image).err(), Some(HunkError::SizeOverflow));
}

#[test]
fn missing_end_tag_is_end_of_input() {
    let image = words(&[1011, 0, 1, 0, 0, 1, 1003, 1]);
    assert_eq!(HunkParser::parse_bytes(&image).err(), Some(HunkError::UnexpectedEof));
}

#[test]
fn short_code_section_ends_in_eof() {
    // the code section claims 8 bytes but the image ends after 2 of them
    let mut image = words(&[1011, 0, 1, 0, 0, 2, 1001, 2]);
    image.extend_from_slice(&[9, 9]);
    assert_eq!(HunkParser::parse_bytes(&image).err(), Some(HunkError::UnexpectedEof));
}

#[test]
fn skip_past_end_is_end_of_input() {
    let image = words(&[1011, 0, 1, 0, 0, 1, 1000, 0xffff_ffff]);
    assert_eq!(HunkParser::parse_bytes(&image).err(), Some(HunkError::UnexpectedEof));
}

#[test]
fn later_section_overrides_earlier_one() {
    // code then data in one block: the hunk ends up a data hunk
    let image = words(&[1011, 0, 1, 0, 0, 1, 1001, 1, 5, 1002, 1, 6, 1010]);
    let hunks = HunkParser::parse_bytes(&image).unwrap();
    assert_eq!(hunks[0].hunk_type, HunkType::Data);
    assert_eq!(hunks[0].code_data.as_ref().unwrap(), &vec![0, 0, 0, 6]);
}

#[test]
fn short_bulk_read_is_padded_with_zeros() {
    let data = [1u8, 2, 3];
    let mut r = HunkReader::new(&data);
    assert_eq!(r.read_u32(), Err(HunkError::UnexpectedEof));
    assert_eq!(r.pos, 0);
    assert_eq!(r.read_bytes(5), vec![1, 2, 3, 0, 0]);
    assert_eq!(r.pos, 3);
    assert_eq!(r.read_bytes(2), vec![0, 0]);
    assert_eq!(r.pos, 3);
    assert_eq!(r.seek(10), Ok(()));
    assert_eq!(r.pos, 13);
    assert_eq!(r.read_words(0).unwrap(), Vec::<u32>::new());
    assert_eq!(r.read_words(1).err(), Some(HunkError::UnexpectedEof));
}

#[test]
fn reader_reads_words_in_a_row() {
    let data = words(&[7, 8, 9]);
    let mut r = HunkReader::new(&data);
    assert_eq!(r.read_words(2).unwrap(), vec![7, 8]);
    assert_eq!(r.read_u32(), Ok(9));
    assert_eq!(r.read_words(1).err(), Some(HunkError::UnexpectedEof));
}

#[test]
fn second_header_word_and_table_size_do_not_matter() {
    let a = HunkParser::parse_bytes(&small_executable()).unwrap();
    let mut other = small_executable();
    other[4..8].copy_from_slice(&0xffff_ffffu32.to_be_bytes());
    other[8..12].copy_from_slice(&0x1234u32.to_be_bytes());
    let b = HunkParser::parse_bytes(&other).unwrap();
    assert_eq!(a.len(), b.len());
    assert_eq!(a[0].code_data, b[0].code_data);
}
