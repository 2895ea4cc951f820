//! The Amiga hunk executable format: a header with a table of hunk sizes, then
//! one block per hunk made of tagged sections (code, data, bss, relocations,
//! symbols, debug information) closed by an end tag.
//!
//! The parser reads from an in-memory image of the file through `HunkReader`,
//! which behaves as a file would: a read of a word past the end fails, a seek
//! may go past the end, and a bulk read past the end copies what is left.
use vstd::prelude::*;
use crate::bytes::{be_u32_at, be_read_u32};

verus! {

pub const HUNK_HEADER: u32 = 1011;
pub const HUNK_UNIT: u32 = 999;
pub const HUNK_NAME: u32 = 1000;
pub const HUNK_CODE: u32 = 1001;
pub const HUNK_DATA: u32 = 1002;
pub const HUNK_BSS: u32 = 1003;
pub const HUNK_RELOC32: u32 = 1004;
pub const HUNK_DEBUG: u32 = 1009;
pub const HUNK_SYMBOL: u32 = 1008;
pub const HUNK_END: u32 = 1010;

/// Memory flag in the top bits of a size word: the hunk wants chip memory.
pub const HUNKF_CHIP: u32 = 0x4000_0000;
/// Memory flag in the top bits of a size word: the hunk wants fast memory.
pub const HUNKF_FAST: u32 = 0x8000_0000;

/// The largest position a file can be moved to.
pub open spec fn max_file_pos() -> int {
    0x7fff_ffff_ffff_ffff
}

/// The kind of a hunk.
#[derive(Clone, Copy, Debug, PartialEq, Eq, Structural)]
pub enum HunkType {
    Code,
    Data,
    Bss,
}

/// The memory a hunk asks to be loaded into.
#[derive(Clone, Copy, Debug, PartialEq, Eq, Structural)]
pub enum MemoryType {
    Any,
    Chip,
    Fast,
}

/// Why an image is not a hunk executable this parser accepts.
#[derive(Clone, Copy, Debug, PartialEq, Eq, Structural)]
pub enum HunkError {
    /// A word was to be read past the end of the image.
    UnexpectedEof,
    /// A seek would move past the largest file position.
    InvalidSeek,
    /// The first word is not `HUNK_HEADER`.
    InvalidHeader,
    /// The table size, first or last hunk number is negative as a signed word.
    InvalidSizes,
    /// The last hunk number is below the first one by more than one, or the
    /// hunk count does not fit a signed word.
    InvalidHunkRange,
    /// A symbol length, counted in bytes, does not fit a word.
    SizeOverflow,
    /// A hunk block holds a tag this parser does not know.
    UnsupportedHunk,
}

/// The 32-bit relocations of one hunk against one target hunk: the offsets,
/// within the hunk, of the words that hold addresses in the target.
pub struct RelocInfo32 {
    pub target: usize,
    pub data: Vec<u32>,
}

/// One hunk of an executable.
pub struct Hunk {
    pub mem_type: MemoryType,
    pub hunk_type: HunkType,
    /// The size that the header's table gives for the hunk.
    pub alloc_size: usize,
    /// The size of the hunk's own section.
    pub data_size: usize,
    /// The bytes of a code or data section.
    pub code_data: Option<Vec<u8>>,
    pub reloc_32: Option<Vec<RelocInfo32>>,
    /// Where the loader placed the hunk in memory.
    pub memory_offset: usize,
}

/// What a `RelocInfo32` holds, as plain values.
pub struct RelocModel {
    pub target: usize,
    pub data: Seq<u32>,
}

/// What a `Hunk` holds, as plain values.
pub struct HunkModel {
    pub mem_type: MemoryType,
    pub hunk_type: HunkType,
    pub alloc_size: usize,
    pub data_size: usize,
    pub code_data: Option<Seq<u8>>,
    pub reloc_32: Option<Seq<RelocModel>>,
    pub memory_offset: usize,
}

impl View for RelocInfo32 {
    type V = RelocModel;

    open spec fn view(&self) -> RelocModel {
        RelocModel { target: self.target, data: self.data@ }
    }
}

pub open spec fn relocs_view(v: Seq<RelocInfo32>) -> Seq<RelocModel> {
    v.map_values(|r: RelocInfo32| r@)
}

pub open spec fn hunks_view(v: Seq<Hunk>) -> Seq<HunkModel> {
    v.map_values(|h: Hunk| h@)
}

impl View for Hunk {
    type V = HunkModel;

    open spec fn view(&self) -> HunkModel {
        HunkModel {
            mem_type: self.mem_type,
            hunk_type: self.hunk_type,
            alloc_size: self.alloc_size,
            data_size: self.data_size,
            code_data: match self.code_data {
                Some(v) => Some(v@),
                None => None,
            },
            reloc_32: match self.reloc_32 {
                Some(v) => Some(relocs_view(v@)),
                None => None,
            },
            memory_offset: self.memory_offset,
        }
    }
}

impl HunkModel {
    /// A code or data hunk holds exactly `data_size` bytes of section data.
    pub open spec fn wf(self) -> bool {
        self.hunk_type != HunkType::Bss ==> (self.code_data matches Some(c) && c.len()
            == self.data_size)
    }
}

// ---------------------------------------------------------------------------
// What reading the image means
// ---------------------------------------------------------------------------

/// Reading a big-endian word at `pos`: the word and the position after it.
pub open spec fn read_u32_spec(data: Seq<u8>, pos: int) -> Result<(u32, int), HunkError> {
    if 0 <= pos && pos + 4 <= data.len() {
        Ok((be_u32_at(data, pos), pos + 4))
    } else {
        Err(HunkError::UnexpectedEof)
    }
}

/// Moving `n` bytes forward from `pos`.
pub open spec fn seek_spec(pos: int, n: int) -> Result<int, HunkError> {
    if pos + n <= max_file_pos() {
        Ok(pos + n)
    } else {
        Err(HunkError::InvalidSeek)
    }
}

/// How many bytes a bulk read of `size` bytes at `pos` finds.
pub open spec fn available(data: Seq<u8>, pos: int, size: nat) -> nat {
    if pos >= data.len() {
        0
    } else if pos + size <= data.len() {
        size
    } else {
        (data.len() - pos) as nat
    }
}

/// A bulk read of `size` bytes at `pos`: a buffer of `size` bytes that starts
/// with what is left of the image and is zero after it, and the new position.
pub open spec fn read_bytes_spec(data: Seq<u8>, pos: int, size: nat) -> (Seq<u8>, int) {
    let n = available(data, pos, size);
    let found = if n == 0 {
        Seq::empty()
    } else {
        data.subrange(pos, pos + n)
    };
    (found + Seq::new((size - n) as nat, |i: int| 0u8), pos + n)
}

/// Reading `n` words in a row from `pos`.
pub open spec fn read_words_spec(data: Seq<u8>, pos: int, n: nat) -> Result<
    (Seq<u32>, int),
    HunkError,
> {
    if n == 0 || (0 <= pos && pos + 4 * n <= data.len()) {
        Ok((Seq::new(n, |i: int| be_u32_at(data, pos + 4 * i)), pos + 4 * n))
    } else {
        Err(HunkError::UnexpectedEof)
    }
}

/// The size in bytes (the low 28 bits count long words) and memory kind (the
/// top four bits) encoded in a size word.
pub open spec fn size_type_spec(t: u32) -> (usize, MemoryType) {
    let size = ((t & 0x0fff_ffffu32) * 4) as usize;
    let flags = t & 0xf000_0000u32;
    (
        size,
        if flags == HUNKF_CHIP {
            MemoryType::Chip
        } else if flags == HUNKF_FAST {
            MemoryType::Fast
        } else {
            MemoryType::Any
        },
    )
}

/// A skipped section: a length word, then that many bytes.
pub open spec fn skip_spec(data: Seq<u8>, pos: int) -> Result<int, HunkError> {
    match read_u32_spec(data, pos) {
        Err(e) => Err(e),
        Ok((n, p)) => seek_spec(p, n as int),
    }
}

/// A bss section: a size word.
pub open spec fn bss_spec(data: Seq<u8>, pos: int, h: HunkModel) -> Result<
    (HunkModel, int),
    HunkError,
> {
    match read_u32_spec(data, pos) {
        Err(e) => Err(e),
        Ok((t, p)) => {
            let (size, mem) = size_type_spec(t);
            Ok((HunkModel { hunk_type: HunkType::Bss, data_size: size, mem_type: mem, ..h }, p))
        },
    }
}

/// A code or data section: a size word, then the section's bytes.
pub open spec fn code_spec(data: Seq<u8>, pos: int, kind: HunkType, h: HunkModel) -> Result<
    (HunkModel, int),
    HunkError,
> {
    match read_u32_spec(data, pos) {
        Err(e) => Err(e),
        Ok((t, p)) => {
            let (size, mem) = size_type_spec(t);
            let (buf, p2) = read_bytes_spec(data, p, size as nat);
            Ok(
                (
                    HunkModel {
                        hunk_type: kind,
                        data_size: size,
                        mem_type: mem,
                        code_data: Some(buf),
                        ..h
                    },
                    p2,
                ),
            )
        },
    }
}

/// The rest of a symbol section once a name of `sym_len` bytes is due: each
/// entry is a name and a value word, and a zero length ends the section.
pub open spec fn symbols_from(data: Seq<u8>, pos: int, sym_len: u32) -> Result<int, HunkError>
    decreases data.len() - pos,
{
    if sym_len == 0 {
        Ok(pos)
    } else if sym_len as int + 4 > u32::MAX {
        Err(HunkError::SizeOverflow)
    } else {
        match seek_spec(pos, sym_len + 4) {
            Err(e) => Err(e),
            Ok(p1) => match read_u32_spec(data, p1) {
                Err(e) => Err(e),
                Ok((x, p2)) => if x >= 0x4000_0000 {
                    Err(HunkError::SizeOverflow)
                } else if pos < p2 {
                    symbols_from(data, p2, (x * 4) as u32)
                } else {
                    Err(HunkError::InvalidSeek)
                },
            },
        }
    }
}

/// A symbol section: name lengths in long words, each name followed by a value.
pub open spec fn symbol_spec(data: Seq<u8>, pos: int) -> Result<int, HunkError> {
    match read_u32_spec(data, pos) {
        Err(e) => Err(e),
        Ok((x, p)) => if x >= 0x4000_0000 {
            Err(HunkError::SizeOverflow)
        } else {
            symbols_from(data, p, (x * 4) as u32)
        },
    }
}

/// The groups of a relocation section from `pos`: each is a count, a target
/// hunk and that many offsets; a zero count ends the section.
pub open spec fn relocs_from(data: Seq<u8>, pos: int) -> Result<(Seq<RelocModel>, int), HunkError>
    decreases data.len() - pos,
{
    match read_u32_spec(data, pos) {
        Err(e) => Err(e),
        Ok((count, p1)) => if count == 0 {
            Ok((Seq::empty(), p1))
        } else {
            match read_u32_spec(data, p1) {
                Err(e) => Err(e),
                Ok((target, p2)) => match read_words_spec(data, p2, count as nat) {
                    Err(e) => Err(e),
                    Ok((words, p3)) => if pos < p3 {
                        match relocs_from(data, p3) {
                            Err(e) => Err(e),
                            Ok((rest, p4)) => Ok(
                                (seq![RelocModel { target: target as usize, data: words }] + rest, p4),
                            ),
                        }
                    } else {
                        Err(HunkError::UnexpectedEof)
                    },
                },
            }
        },
    }
}

/// A relocation section: its groups replace the hunk's relocations.
pub open spec fn reloc32_spec(data: Seq<u8>, pos: int, h: HunkModel) -> Result<
    (HunkModel, int),
    HunkError,
> {
    match relocs_from(data, pos) {
        Err(e) => Err(e),
        Ok((relocs, p)) => Ok((HunkModel { reloc_32: Some(relocs), ..h }, p)),
    }
}

/// One tagged section of a hunk block: the hunk after it, the position after
/// it, and whether it was the end tag.
pub open spec fn section_spec(data: Seq<u8>, pos: int, h: HunkModel) -> Result<
    (HunkModel, int, bool),
    HunkError,
> {
    match read_u32_spec(data, pos) {
        Err(e) => Err(e),
        Ok((tag, p)) => if tag == HUNK_UNIT || tag == HUNK_NAME || tag == HUNK_DEBUG {
            match skip_spec(data, p) {
                Err(e) => Err(e),
                Ok(p2) => Ok((h, p2, false)),
            }
        } else if tag == HUNK_CODE {
            match code_spec(data, p, HunkType::Code, h) {
                Err(e) => Err(e),
                Ok((h2, p2)) => Ok((h2, p2, false)),
            }
        } else if tag == HUNK_DATA {
            match code_spec(data, p, HunkType::Data, h) {
                Err(e) => Err(e),
                Ok((h2, p2)) => Ok((h2, p2, false)),
            }
        } else if tag == HUNK_BSS {
            match bss_spec(data, p, h) {
                Err(e) => Err(e),
                Ok((h2, p2)) => Ok((h2, p2, false)),
            }
        } else if tag == HUNK_RELOC32 {
            match reloc32_spec(data, p, h) {
                Err(e) => Err(e),
                Ok((h2, p2)) => Ok((h2, p2, false)),
            }
        } else if tag == HUNK_SYMBOL {
            match symbol_spec(data, p) {
                Err(e) => Err(e),
                Ok(p2) => Ok((h, p2, false)),
            }
        } else if tag == HUNK_END {
            Ok((h, p, true))
        } else {
            Err(HunkError::UnsupportedHunk)
        }
    }
}

/// A whole hunk block from `pos`: sections up to and including the end tag.
pub open spec fn fill_from(data: Seq<u8>, pos: int, h: HunkModel) -> Result<
    (HunkModel, int),
    HunkError,
>
    decreases data.len() - pos,
{
    match section_spec(data, pos, h) {
        Err(e) => Err(e),
        Ok((h2, p2, ended)) => if ended {
            Ok((h2, p2))
        } else if pos < p2 && p2 <= data.len() {
            fill_from(data, p2, h2)
        } else {
            Err(HunkError::UnexpectedEof)
        },
    }
}

/// The hunk as a block leaves it when reading the block fails: the sections
/// read before the failing one have their effect, the failing one has none.
pub open spec fn fill_failed_hunk(data: Seq<u8>, pos: int, h: HunkModel) -> HunkModel
    decreases data.len() - pos,
{
    match section_spec(data, pos, h) {
        Err(_) => h,
        Ok((h2, p2, ended)) => if !ended && pos < p2 && p2 <= data.len() {
            fill_failed_hunk(data, p2, h2)
        } else {
            h2
        },
    }
}

/// Where the reader stands when skipping a section fails.
pub open spec fn skip_fail_pos(data: Seq<u8>, pos: int) -> int {
    match read_u32_spec(data, pos) {
        Err(_) => pos,
        Ok((_, p)) => p,
    }
}

/// Where the reader stands when the rest of a symbol section fails.
pub open spec fn symbols_fail_pos(data: Seq<u8>, pos: int, sym_len: u32) -> int
    decreases data.len() - pos,
{
    if sym_len == 0 || sym_len as int + 4 > u32::MAX {
        pos
    } else {
        match seek_spec(pos, sym_len + 4) {
            Err(_) => pos,
            Ok(p1) => match read_u32_spec(data, p1) {
                Err(_) => p1,
                Ok((x, p2)) => if x < 0x4000_0000 && pos < p2 {
                    symbols_fail_pos(data, p2, (x * 4) as u32)
                } else {
                    p2
                },
            },
        }
    }
}

/// Where the reader stands when a symbol section fails.
pub open spec fn symbol_fail_pos(data: Seq<u8>, pos: int) -> int {
    match read_u32_spec(data, pos) {
        Err(_) => pos,
        Ok((x, p)) => if x >= 0x4000_0000 {
            p
        } else {
            symbols_fail_pos(data, p, (x * 4) as u32)
        },
    }
}

/// Where the reader stands when a relocation section fails.
pub open spec fn relocs_fail_pos(data: Seq<u8>, pos: int) -> int
    decreases data.len() - pos,
{
    match read_u32_spec(data, pos) {
        Err(_) => pos,
        Ok((count, p1)) => if count == 0 {
            p1
        } else {
            match read_u32_spec(data, p1) {
                Err(_) => p1,
                Ok((_, p2)) => match read_words_spec(data, p2, count as nat) {
                    Err(_) => p2,
                    Ok((_, p3)) => if pos < p3 {
                        relocs_fail_pos(data, p3)
                    } else {
                        p3
                    },
                },
            }
        },
    }
}

/// Where the reader stands when a section fails: after the tag for an unknown
/// tag, and where the section's own reading stopped otherwise.
pub open spec fn section_fail_pos(data: Seq<u8>, pos: int) -> int {
    match read_u32_spec(data, pos) {
        Err(_) => pos,
        Ok((tag, p)) => if tag == HUNK_UNIT || tag == HUNK_NAME || tag == HUNK_DEBUG {
            skip_fail_pos(data, p)
        } else if tag == HUNK_RELOC32 {
            relocs_fail_pos(data, p)
        } else if tag == HUNK_SYMBOL {
            symbol_fail_pos(data, p)
        } else {
            p
        },
    }
}

/// Where the reader stands when reading a hunk block fails.
pub open spec fn fill_fail_pos(data: Seq<u8>, pos: int, h: HunkModel) -> int
    decreases data.len() - pos,
{
    match section_spec(data, pos, h) {
        Err(_) => section_fail_pos(data, pos),
        Ok((h2, p2, ended)) => if !ended && pos < p2 && p2 <= data.len() {
            fill_fail_pos(data, p2, h2)
        } else {
            p2
        },
    }
}

/// The hunk the header's table describes, before its block is read.
pub open spec fn initial_hunk(t: u32) -> HunkModel {
    let (size, mem) = size_type_spec(t);
    HunkModel {
        mem_type: mem,
        hunk_type: HunkType::Bss,
        alloc_size: size,
        data_size: 0,
        code_data: None,
        reloc_32: None,
        memory_offset: 0,
    }
}

/// The blocks of the hunks that `table` describes, one after the other.
pub open spec fn fill_all(data: Seq<u8>, pos: int, table: Seq<u32>) -> Result<
    (Seq<HunkModel>, int),
    HunkError,
>
    decreases table.len(),
{
    if table.len() == 0 {
        Ok((Seq::empty(), pos))
    } else {
        match fill_from(data, pos, initial_hunk(table[0])) {
            Err(e) => Err(e),
            Ok((h, p)) => match fill_all(data, p, table.drop_first()) {
                Err(e) => Err(e),
                Ok((hs, p2)) => Ok((seq![h] + hs, p2)),
            },
        }
    }
}

/// The hunks of a whole executable image.
pub open spec fn parse_spec(data: Seq<u8>) -> Result<Seq<HunkModel>, HunkError> {
    match read_u32_spec(data, 0) {
        Err(e) => Err(e),
        Ok((header, p1)) => if header != HUNK_HEADER {
            Err(HunkError::InvalidHeader)
        } else {
            match read_u32_spec(data, p1) {
                Err(e) => Err(e),
                Ok((_, p2)) => match read_u32_spec(data, p2) {
                    Err(e) => Err(e),
                    Ok((table_size, p3)) => match read_u32_spec(data, p3) {
                        Err(e) => Err(e),
                        Ok((first, p4)) => match read_u32_spec(data, p4) {
                            Err(e) => Err(e),
                            Ok((last, p5)) => if table_size >= 0x8000_0000 || first >= 0x8000_0000
                                || last >= 0x8000_0000 {
                                Err(HunkError::InvalidSizes)
                            } else if last + 1 < first || last - first + 1 >= 0x8000_0000 {
                                Err(HunkError::InvalidHunkRange)
                            } else {
                                match read_words_spec(data, p5, (last - first + 1) as nat) {
                                    Err(e) => Err(e),
                                    Ok((table, p6)) => match fill_all(data, p6, table) {
                                        Err(e) => Err(e),
                                        Ok((hunks, _)) => Ok(hunks),
                                    },
                                }
                            },
                        },
                    },
                },
            }
        }
    }
}

// ---------------------------------------------------------------------------
// The reader
// ---------------------------------------------------------------------------

/// A position in an executable image, moved as a file's would be.
pub struct HunkReader<'a> {
    pub data: &'a [u8],
    pub pos: u64,
}

impl<'a> HunkReader<'a> {
    pub open spec fn wf(&self) -> bool {
        &&& self.pos <= max_file_pos()
        &&& self.data@.len() <= max_file_pos()
    }

    /// A reader at the start of `data`.
    pub fn new(data: &'a [u8]) -> (r: Self)
        requires
            data@.len() <= max_file_pos(),
        ensures
            r.data@ == data@,
            r.pos == 0,
            r.wf(),
    {
        HunkReader { data, pos: 0 }
    }

    /// Reads the big-endian word at the current position.
    pub fn read_u32(&mut self) -> (res: Result<u32, HunkError>)
        requires
            old(self).wf(),
        ensures
            final(self).data@ == old(self).data@,
            final(self).wf(),
            match read_u32_spec(old(self).data@, old(self).pos as int) {
                Ok((v, p)) => res == Ok::<u32, HunkError>(v) && final(self).pos == p,
                Err(e) => res == Err::<u32, HunkError>(e) && final(self).pos == old(self).pos,
            },
    {
        let len = self.data.len() as u64;
        if self.pos <= len && len - self.pos >= 4 {
            let p = self.pos as usize;
            let v = be_read_u32(self.data, p);
            self.pos = self.pos + 4;
            Ok(v)
        } else {
            Err(HunkError::UnexpectedEof)
        }
    }

    /// Moves `n` bytes forward; the position may pass the end of the image.
    pub fn seek(&mut self, n: u64) -> (res: Result<(), HunkError>)
        requires
            old(self).wf(),
        ensures
            final(self).data@ == old(self).data@,
            final(self).wf(),
            match seek_spec(old(self).pos as int, n as int) {
                Ok(p) => res is Ok && final(self).pos == p,
                Err(e) => res == Err::<(), HunkError>(e) && final(self).pos == old(self).pos,
            },
    {
        if n > 0x7fff_ffff_ffff_ffffu64 - self.pos {
            Err(HunkError::InvalidSeek)
        } else {
            self.pos = self.pos + n;
            Ok(())
        }
    }

    /// Reads `size` bytes: what is left of the image, then zeros.
    pub fn read_bytes(&mut self, size: usize) -> (buf: Vec<u8>)
        requires
            old(self).wf(),
        ensures
            final(self).data@ == old(self).data@,
            final(self).wf(),
            (buf@, final(self).pos as int) == read_bytes_spec(
                old(self).data@,
                old(self).pos as int,
                size as nat,
            ),
    {
        let ghost d = self.data@;
        let ghost p0 = self.pos as int;
        let len = self.data.len();
        let n: usize = if self.pos >= len as u64 {
            0
        } else if size as u64 <= len as u64 - self.pos {
            size
        } else {
            (len as u64 - self.pos) as usize
        };
        assert(n == available(d, p0, size as nat));
        let start: usize = if n == 0 {
            0
        } else {
            self.pos as usize
        };
        let mut buf: Vec<u8> = Vec::new();
        let mut i: usize = 0;
        while i < n
            invariant
                i <= n,
                n == available(d, p0, size as nat),
                n > 0 ==> start == p0,
                n == 0 ==> start == 0,
                start + n <= d.len(),
                len == d.len(),
                self.data@ == d,
                buf@ == d.subrange(start as int, start + i),
            decreases n - i,
        {
            buf.push(self.data[start + i]);
            i = i + 1;
        }
        while i < size
            invariant
                n <= i <= size,
                buf@ == d.subrange(start as int, start + n) + Seq::new((i - n) as nat, |k: int| 0u8),
            decreases size - i,
        {
            buf.push(0u8);
            i = i + 1;
            assert(buf@ =~= d.subrange(start as int, start + n) + Seq::new((i - n) as nat, |k: int| 0u8));
        }
        self.pos = self.pos + n as u64;
        assert(buf@ =~= read_bytes_spec(d, p0, size as nat).0);
        buf
    }

    /// Reads `count` words in a row.
    pub fn read_words(&mut self, count: usize) -> (res: Result<Vec<u32>, HunkError>)
        requires
            old(self).wf(),
        ensures
            final(self).data@ == old(self).data@,
            final(self).wf(),
            final(self).pos >= old(self).pos,
            match read_words_spec(old(self).data@, old(self).pos as int, count as nat) {
                Ok((ws, p)) => res matches Ok(v) && v@ == ws && final(self).pos == p,
                Err(e) => res == Err::<Vec<u32>, HunkError>(e) && final(self).pos == old(self).pos,
            },
    {
        let len = self.data.len() as u64;
        if count > 0 && (self.pos > len || (count as u64) > (len - self.pos) / 4) {
            return Err(HunkError::UnexpectedEof);
        }
        let data_len: usize = self.data.len();
        let mut words: Vec<u32> = Vec::new();
        let mut i: usize = 0;
        while i < count
            invariant
                i <= count,
                self.wf(),
                self.data@ == old(self).data@,
                data_len == self.data@.len(),
                self.pos == old(self).pos + 4 * i,
                count > 0 ==> old(self).pos + 4 * count <= old(self).data@.len(),
                words@ == Seq::new(i as nat, |k: int| be_u32_at(old(self).data@, old(self).pos + 4 * k)),
            decreases count - i,
        {
            let w = be_read_u32(self.data, self.pos as usize);
            assert(w == be_u32_at(old(self).data@, old(self).pos + 4 * i));
            words.push(w);
            self.pos = self.pos + 4;
            i = i + 1;
            assert(words@ =~= Seq::new(i as nat, |k: int| be_u32_at(old(self).data@, old(self).pos + 4 * k)));
        }
        Ok(words)
    }
}


// ---------------------------------------------------------------------------
// The parser
// ---------------------------------------------------------------------------

/// An entry of the header's table: the size and memory kind of one hunk.
pub struct SizesTypes {
    pub mem_type: MemoryType,
    pub size: usize,
}

/// What a reader step did, as `pos_after` and the result: on success the reader
/// stands where `spec` says; on failure the error is the one `spec` gives and
/// the reader stands at `fail_pos`.
pub open spec fn moved_as(
    spec: Result<int, HunkError>,
    res: Result<(), HunkError>,
    pos_after: u64,
    fail_pos: int,
) -> bool {
    match spec {
        Ok(p) => res is Ok && pos_after == p,
        Err(e) => res == Err::<(), HunkError>(e) && pos_after == fail_pos,
    }
}

/// What a hunk-changing reader step did: on success the hunk and the reader are
/// as `spec` says; on failure the error is the one `spec` gives, the hunk is
/// `hunk_on_error` and the reader stands at `fail_pos`.
pub open spec fn hunk_moved_as(
    spec: Result<(HunkModel, int), HunkError>,
    res: Result<(), HunkError>,
    hunk_after: HunkModel,
    pos_after: u64,
    hunk_on_error: HunkModel,
    fail_pos: int,
) -> bool {
    match spec {
        Ok((h, p)) => res is Ok && hunk_after == h && pos_after == p,
        Err(e) => res == Err::<(), HunkError>(e) && hunk_after == hunk_on_error && pos_after
            == fail_pos,
    }
}

/// The parser of hunk executables.
pub struct HunkParser;

impl HunkParser {
    /// Skips a section made of a length word and that many bytes.
    fn skip_hunk(r: &mut HunkReader) -> (res: Result<(), HunkError>)
        requires
            old(r).wf(),
        ensures
            final(r).data@ == old(r).data@,
            final(r).wf(),
            final(r).pos >= old(r).pos,
            moved_as(
                skip_spec(old(r).data@, old(r).pos as int),
                res,
                final(r).pos,
                skip_fail_pos(old(r).data@, old(r).pos as int),
            ),
    {
        match r.read_u32() {
            Err(e) => Err(e),
            Ok(seek_offset) => r.seek(seek_offset as u64),
        }
    }

    /// Splits a size word into the size in bytes (the low 28 bits count long
    /// words) and the memory kind (the top four bits: chip, fast, or any other).
    pub fn get_size_type(t: u32) -> (r: (usize, MemoryType))
        ensures
            r == size_type_spec(t),
    {
        let masked = t & 0x0fff_ffffu32;
        assert(masked <= 0x0fff_ffffu32) by (bit_vector)
            requires
                masked == t & 0x0fff_ffffu32,
        ;
        let size = masked * 4;
        let mem_t = t & 0xf000_0000u32;
        let mem_type = if mem_t == HUNKF_CHIP {
            MemoryType::Chip
        } else if mem_t == HUNKF_FAST {
            MemoryType::Fast
        } else {
            MemoryType::Any
        };
        (size as usize, mem_type)
    }

    /// A bss section: records the size and memory kind, and marks the hunk bss.
    fn parse_bss(hunk: &mut Hunk, r: &mut HunkReader) -> (res: Result<(), HunkError>)
        requires
            old(r).wf(),
        ensures
            final(r).data@ == old(r).data@,
            final(r).wf(),
            final(r).pos >= old(r).pos,
            hunk_moved_as(
                bss_spec(old(r).data@, old(r).pos as int, old(hunk)@),
                res,
                final(hunk)@,
                final(r).pos,
                old(hunk)@,
                old(r).pos as int,
            ),
    {
        match r.read_u32() {
            Err(e) => Err(e),
            Ok(t) => {
                let (size, mem_type) = Self::get_size_type(t);
                hunk.hunk_type = HunkType::Bss;
                hunk.data_size = size;
                hunk.mem_type = mem_type;
                Ok(())
            },
        }
    }

    /// A code or data section: records the size, memory kind and kind, and the
    /// section's bytes.
    fn parse_code_or_data(hunk_type: HunkType, hunk: &mut Hunk, r: &mut HunkReader) -> (res: Result<
        (),
        HunkError,
    >)
        requires
            old(r).wf(),
        ensures
            final(r).data@ == old(r).data@,
            final(r).wf(),
            final(r).pos >= old(r).pos,
            hunk_moved_as(
                code_spec(old(r).data@, old(r).pos as int, hunk_type, old(hunk)@),
                res,
                final(hunk)@,
                final(r).pos,
                old(hunk)@,
                old(r).pos as int,
            ),
    {
        match r.read_u32() {
            Err(e) => Err(e),
            Ok(t) => {
                let (size, mem_type) = Self::get_size_type(t);
                let code_data = r.read_bytes(size);
                hunk.data_size = size;
                hunk.hunk_type = hunk_type;
                hunk.mem_type = mem_type;
                hunk.code_data = Some(code_data);
                Ok(())
            },
        }
    }

    /// A symbol section: skips every name and value up to a zero length.
    fn parse_symbol(r: &mut HunkReader) -> (res: Result<(), HunkError>)
        requires
            old(r).wf(),
        ensures
            final(r).data@ == old(r).data@,
            final(r).wf(),
            final(r).pos >= old(r).pos,
            moved_as(
                symbol_spec(old(r).data@, old(r).pos as int),
                res,
                final(r).pos,
                symbol_fail_pos(old(r).data@, old(r).pos as int),
            ),
    {
        let first = match r.read_u32() {
            Err(e) => {
                return Err(e);
            },
            Ok(x) => x,
        };
        if first >= 0x4000_0000 {
            return Err(HunkError::SizeOverflow);
        }
        let mut sym_len: u32 = first * 4;
        while sym_len > 0
            invariant
                r.wf(),
                r.data@ == old(r).data@,
                r.pos >= old(r).pos,
                r.pos <= r.data@.len(),
                symbol_spec(old(r).data@, old(r).pos as int) == symbols_from(
                    old(r).data@,
                    r.pos as int,
                    sym_len,
                ),
                symbol_fail_pos(old(r).data@, old(r).pos as int) == symbols_fail_pos(
                    old(r).data@,
                    r.pos as int,
                    sym_len,
                ),
            decreases r.data@.len() - r.pos,
        {
            if sym_len > 0xffff_fffbu32 {
                return Err(HunkError::SizeOverflow);
            }
            match r.seek((sym_len + 4) as u64) {
                Err(e) => {
                    return Err(e);
                },
                Ok(()) => {},
            }
            let next = match r.read_u32() {
                Err(e) => {
                    return Err(e);
                },
                Ok(x) => x,
            };
            if next >= 0x4000_0000 {
                return Err(HunkError::SizeOverflow);
            }
            sym_len = next * 4;
        }
        Ok(())
    }

    /// A relocation section: reads every group up to a zero count and makes
    /// them the hunk's relocations.
    fn parse_reloc32(hunk: &mut Hunk, r: &mut HunkReader) -> (res: Result<(), HunkError>)
        requires
            old(r).wf(),
        ensures
            final(r).data@ == old(r).data@,
            final(r).wf(),
            final(r).pos >= old(r).pos,
            hunk_moved_as(
                reloc32_spec(old(r).data@, old(r).pos as int, old(hunk)@),
                res,
                final(hunk)@,
                final(r).pos,
                old(hunk)@,
                relocs_fail_pos(old(r).data@, old(r).pos as int),
            ),
    {
        if r.pos > r.data.len() as u64 {
            return Err(HunkError::UnexpectedEof);
        }
        let mut relocs: Vec<RelocInfo32> = Vec::new();
        loop
            invariant_except_break
                match relocs_from(old(r).data@, r.pos as int) {
                    Ok((rest, p)) => relocs_from(old(r).data@, old(r).pos as int) == Ok::<
                        (Seq<RelocModel>, int),
                        HunkError,
                    >((relocs_view(relocs@) + rest, p)),
                    Err(e) => relocs_from(old(r).data@, old(r).pos as int) == Err::<
                        (Seq<RelocModel>, int),
                        HunkError,
                    >(e),
                },
                relocs_fail_pos(old(r).data@, old(r).pos as int) == relocs_fail_pos(
                    old(r).data@,
                    r.pos as int,
                ),
            invariant
                r.wf(),
                r.data@ == old(r).data@,
                r.pos >= old(r).pos,
                r.pos <= r.data@.len(),
            ensures
                r.wf(),
                r.data@ == old(r).data@,
                r.pos >= old(r).pos,
                relocs_from(old(r).data@, old(r).pos as int) == Ok::<
                    (Seq<RelocModel>, int),
                    HunkError,
                >((relocs_view(relocs@), r.pos as int)),
            decreases r.data@.len() - r.pos,
        {
            let count = match r.read_u32() {
                Err(e) => {
                    return Err(e);
                },
                Ok(c) => c,
            };
            if count == 0 {
                assert(relocs_view(relocs@) + Seq::<RelocModel>::empty() =~= relocs_view(relocs@));
                break;
            }
            let target = match r.read_u32() {
                Err(e) => {
                    return Err(e);
                },
                Ok(t) => t,
            };
            let data = match r.read_words(count as usize) {
                Err(e) => {
                    return Err(e);
                },
                Ok(words) => words,
            };
            let ghost old_relocs = relocs@;
            let reloc = RelocInfo32 { target: target as usize, data };
            relocs.push(reloc);
            proof {
                assert(relocs_view(relocs@) =~= relocs_view(old_relocs).push(reloc@));
                match relocs_from(old(r).data@, r.pos as int) {
                    Ok((rest, p)) => {
                        assert(seq![reloc@] + rest =~= seq![RelocModel { target: target as usize, data: reloc.data@ }] + rest);
                        assert(relocs_view(old_relocs) + (seq![reloc@] + rest) =~= relocs_view(relocs@) + rest);
                    },
                    Err(e) => {},
                }
            }
        }
        hunk.reloc_32 = Some(relocs);
        Ok(())
    }

    /// Reads the sections of one hunk block up to its end tag.
    fn fill_hunk(hunk: &mut Hunk, r: &mut HunkReader) -> (res: Result<(), HunkError>)
        requires
            old(r).wf(),
        ensures
            final(r).data@ == old(r).data@,
            final(r).wf(),
            final(r).pos >= old(r).pos,
            hunk_moved_as(
                fill_from(old(r).data@, old(r).pos as int, old(hunk)@),
                res,
                final(hunk)@,
                final(r).pos,
                fill_failed_hunk(old(r).data@, old(r).pos as int, old(hunk)@),
                fill_fail_pos(old(r).data@, old(r).pos as int, old(hunk)@),
            ),
    {
        if r.pos > r.data.len() as u64 {
            return Err(HunkError::UnexpectedEof);
        }
        loop
            invariant
                r.wf(),
                r.data@ == old(r).data@,
                r.pos >= old(r).pos,
                r.pos <= r.data@.len(),
                fill_from(old(r).data@, old(r).pos as int, old(hunk)@) == fill_from(
                    old(r).data@,
                    r.pos as int,
                    hunk@,
                ),
                fill_failed_hunk(old(r).data@, old(r).pos as int, old(hunk)@) == fill_failed_hunk(
                    old(r).data@,
                    r.pos as int,
                    hunk@,
                ),
                fill_fail_pos(old(r).data@, old(r).pos as int, old(hunk)@) == fill_fail_pos(
                    old(r).data@,
                    r.pos as int,
                    hunk@,
                ),
            decreases r.data@.len() - r.pos,
        {
            let hunk_type = match r.read_u32() {
                Err(e) => {
                    return Err(e);
                },
                Ok(t) => t,
            };
            let step = if hunk_type == HUNK_UNIT || hunk_type == HUNK_NAME || hunk_type
                == HUNK_DEBUG {
                Self::skip_hunk(r)
            } else if hunk_type == HUNK_CODE {
                Self::parse_code_or_data(HunkType::Code, hunk, r)
            } else if hunk_type == HUNK_DATA {
                Self::parse_code_or_data(HunkType::Data, hunk, r)
            } else if hunk_type == HUNK_BSS {
                Self::parse_bss(hunk, r)
            } else if hunk_type == HUNK_RELOC32 {
                Self::parse_reloc32(hunk, r)
            } else if hunk_type == HUNK_SYMBOL {
                Self::parse_symbol(r)
            } else if hunk_type == HUNK_END {
                return Ok(());
            } else {
                return Err(HunkError::UnsupportedHunk);
            };
            match step {
                Err(e) => {
                    return Err(e);
                },
                Ok(()) => {},
            }
            if r.pos > r.data.len() as u64 {
                return Err(HunkError::UnexpectedEof);
            }
        }
    }

    /// Parses a whole executable image into its hunks.
    pub fn parse_bytes(data: &[u8]) -> (res: Result<Vec<Hunk>, HunkError>)
        requires
            data@.len() <= max_file_pos(),
        ensures
            match parse_spec(data@) {
                Ok(hs) => res matches Ok(v) && hunks_view(v@) == hs,
                Err(e) => res matches Err(e2) && e2 == e,
            },
            res matches Ok(v) ==> data@.len() >= 20 && v@.len() == be_u32_at(data@, 16) - be_u32_at(
                data@,
                12,
            ) + 1,
    {
        proof {
            lemma_parse_wf(data@);
        }
        let mut r = HunkReader::new(data);
        let hunk_header = match r.read_u32() {
            Err(e) => {
                return Err(e);
            },
            Ok(x) => x,
        };
        if hunk_header != HUNK_HEADER {
            return Err(HunkError::InvalidHeader);
        }
        // The string section that follows the header word is skipped.
        match r.read_u32() {
            Err(e) => {
                return Err(e);
            },
            Ok(_) => {},
        }
        let table_size = match r.read_u32() {
            Err(e) => {
                return Err(e);
            },
            Ok(x) => x,
        };
        let first_hunk = match r.read_u32() {
            Err(e) => {
                return Err(e);
            },
            Ok(x) => x,
        };
        let last_hunk = match r.read_u32() {
            Err(e) => {
                return Err(e);
            },
            Ok(x) => x,
        };
        if table_size >= 0x8000_0000 || first_hunk >= 0x8000_0000 || last_hunk >= 0x8000_0000 {
            return Err(HunkError::InvalidSizes);
        }
        if last_hunk + 1 < first_hunk || last_hunk + 1 - first_hunk >= 0x8000_0000 {
            return Err(HunkError::InvalidHunkRange);
        }
        let hunk_count = (last_hunk + 1 - first_hunk) as usize;
        let words = match r.read_words(hunk_count) {
            Err(e) => {
                return Err(e);
            },
            Ok(w) => w,
        };
        let mut hunk_table: Vec<SizesTypes> = Vec::new();
        let mut i: usize = 0;
        while i < hunk_count
            invariant
                i <= hunk_count,
                words@.len() == hunk_count,
                hunk_table@.len() == i,
                forall|k: int|
                    0 <= k < i ==> (#[trigger] hunk_table@[k]).size == size_type_spec(words@[k]).0
                        && hunk_table@[k].mem_type == size_type_spec(words@[k]).1,
            decreases hunk_count - i,
        {
            let (size, mem_type) = Self::get_size_type(words[i]);
            hunk_table.push(SizesTypes { mem_type, size });
            i = i + 1;
        }
        let ghost d = data@;
        let ghost start = r.pos as int;
        let mut hunks: Vec<Hunk> = Vec::new();
        let mut i: usize = 0;
        proof {
            assert(words@.skip(0) =~= words@);
            assert(hunks_view(hunks@) =~= Seq::<HunkModel>::empty());
            match fill_all(d, start, words@) {
                Ok((hs, p)) => {
                    assert(hunks_view(hunks@) + hs =~= hs);
                },
                Err(e) => {},
            }
        }
        while i < hunk_count
            invariant
                i <= hunk_count,
                words@.len() == hunk_count,
                hunk_table@.len() == hunk_count,
                forall|k: int|
                    0 <= k < hunk_count ==> (#[trigger] hunk_table@[k]).size == size_type_spec(
                        words@[k],
                    ).0 && hunk_table@[k].mem_type == size_type_spec(words@[k]).1,
                r.wf(),
                r.data@ == d,
                d == data@,
                parse_spec(d) == match fill_all(d, start, words@) {
                    Err(e) => Err(e),
                    Ok((hs, _)) => Ok(hs),
                },
                match fill_all(d, r.pos as int, words@.skip(i as int)) {
                    Ok((hs, p)) => fill_all(d, start, words@) == Ok::<
                        (Seq<HunkModel>, int),
                        HunkError,
                    >((hunks_view(hunks@) + hs, p)),
                    Err(e) => fill_all(d, start, words@) == Err::<(Seq<HunkModel>, int), HunkError>(
                        e,
                    ),
                },
            decreases hunk_count - i,
        {
            let mut hunk = Hunk {
                mem_type: hunk_table[i].mem_type,
                hunk_type: HunkType::Bss,
                alloc_size: hunk_table[i].size,
                data_size: 0,
                code_data: None,
                reloc_32: None,
                memory_offset: 0,
            };
            assert(hunk@ == initial_hunk(words@[i as int]));
            assert(words@.skip(i as int).drop_first() =~= words@.skip(i + 1));
            let ghost before = hunks@;
            let ghost pos_before = r.pos as int;
            match Self::fill_hunk(&mut hunk, &mut r) {
                Err(e) => {
                    assert(fill_all(d, pos_before, words@.skip(i as int)) == Err::<
                        (Seq<HunkModel>, int),
                        HunkError,
                    >(e));
                    return Err(e);
                },
                Ok(()) => {},
            }
            hunks.push(hunk);
            proof {
                assert(hunks_view(hunks@) =~= hunks_view(before).push(hunk@));
                match fill_all(d, r.pos as int, words@.skip(i + 1)) {
                    Ok((hs, p)) => {
                        assert(hunks_view(before) + (seq![hunk@] + hs) =~= hunks_view(hunks@) + hs);
                    },
                    Err(e) => {},
                }
            }
            i = i + 1;
        }
        proof {
            assert(words@.skip(hunk_count as int) =~= Seq::<u32>::empty());
            assert(hunks_view(hunks@) + Seq::<HunkModel>::empty() =~= hunks_view(hunks@));
        }
        Ok(hunks)
    }
}


// ---------------------------------------------------------------------------
// Laws of the format
// ---------------------------------------------------------------------------

/// Reading a hunk block keeps a well-formed hunk well-formed, and keeps the
/// size that the header's table gave it.
pub proof fn lemma_fill_from_wf(data: Seq<u8>, pos: int, h: HunkModel)
    requires
        h.wf(),
    ensures
        fill_from(data, pos, h) matches Ok((h2, _)) ==> h2.wf() && h2.alloc_size == h.alloc_size
            && h2.memory_offset == h.memory_offset,
    decreases data.len() - pos,
{
    match section_spec(data, pos, h) {
        Err(_) => {},
        Ok((h2, p2, ended)) => {
            if !ended && pos < p2 && p2 <= data.len() {
                lemma_fill_from_wf(data, p2, h2);
            }
        },
    }
}

/// Reading the blocks of a table gives one hunk per entry, each well-formed and
/// of the size its entry gives.
pub proof fn lemma_fill_all_wf(data: Seq<u8>, pos: int, table: Seq<u32>)
    ensures
        fill_all(data, pos, table) matches Ok((hs, _)) ==> {
            &&& hs.len() == table.len()
            &&& forall|i: int| 0 <= i < hs.len() ==> (#[trigger] hs[i]).wf()
            &&& forall|i: int|
                0 <= i < hs.len() ==> (#[trigger] hs[i]).alloc_size == size_type_spec(table[i]).0
                    && hs[i].memory_offset == 0
        },
    decreases table.len(),
{
    if table.len() > 0 {
        lemma_fill_from_wf(data, pos, initial_hunk(table[0]));
        match fill_from(data, pos, initial_hunk(table[0])) {
            Err(_) => {},
            Ok((h, p)) => {
                lemma_fill_all_wf(data, p, table.drop_first());
                match fill_all(data, p, table.drop_first()) {
                    Err(_) => {},
                    Ok((hs, _)) => {
                        let all = seq![h] + hs;
                        assert forall|i: int| 0 < i < all.len() implies all[i] == hs[i - 1]
                            && table[i] == table.drop_first()[i - 1] by {}
                    },
                }
            },
        }
    }
}

/// A parsed executable has one hunk for each number from the first to the last
/// hunk of its header; each is well-formed (a code or data hunk holds exactly
/// `data_size` bytes), takes its allocation size from its entry in the header's
/// table, and is not placed in memory yet.
pub proof fn lemma_parse_wf(data: Seq<u8>)
    ensures
        parse_spec(data) matches Ok(hs) ==> {
            &&& data.len() >= 20
            &&& hs.len() == be_u32_at(data, 16) - be_u32_at(data, 12) + 1
            &&& forall|i: int| 0 <= i < hs.len() ==> (#[trigger] hs[i]).wf()
            &&& forall|i: int|
                0 <= i < hs.len() ==> (#[trigger] hs[i]).alloc_size == size_type_spec(
                    be_u32_at(data, 20 + 4 * i),
                ).0 && hs[i].memory_offset == 0
        },
{
    if parse_spec(data) is Ok && data.len() >= 20 {
        let count = (be_u32_at(data, 16) - be_u32_at(data, 12) + 1) as nat;
        match read_words_spec(data, 20, count) {
            Err(_) => {},
            Ok((table, p6)) => {
                lemma_fill_all_wf(data, p6, table);
            },
        }
    }
}


/// The errors a hunk block can end in: those of its sections, never one of the
/// header's.
pub open spec fn is_block_error(e: HunkError) -> bool {
    e != HunkError::InvalidHeader && e != HunkError::InvalidSizes && e != HunkError::InvalidHunkRange
}

proof fn lemma_symbols_error(data: Seq<u8>, pos: int, sym_len: u32)
    ensures
        symbols_from(data, pos, sym_len) matches Err(e) ==> is_block_error(e),
    decreases data.len() - pos,
{
    if sym_len != 0 && sym_len as int + 4 <= u32::MAX {
        if let Ok(p1) = seek_spec(pos, sym_len + 4) {
            if let Ok((x, p2)) = read_u32_spec(data, p1) {
                if x < 0x4000_0000 && pos < p2 {
                    lemma_symbols_error(data, p2, (x * 4) as u32);
                }
            }
        }
    }
}

proof fn lemma_relocs_error(data: Seq<u8>, pos: int)
    ensures
        relocs_from(data, pos) matches Err(e) ==> is_block_error(e),
    decreases data.len() - pos,
{
    if let Ok((count, p1)) = read_u32_spec(data, pos) {
        if count != 0 {
            if let Ok((_, p2)) = read_u32_spec(data, p1) {
                if let Ok((_, p3)) = read_words_spec(data, p2, count as nat) {
                    if pos < p3 {
                        lemma_relocs_error(data, p3);
                    }
                }
            }
        }
    }
}

proof fn lemma_section_error(data: Seq<u8>, pos: int, h: HunkModel)
    ensures
        section_spec(data, pos, h) matches Err(e) ==> is_block_error(e),
        section_spec(data, pos, h) matches Ok((_, p2, ended)) ==> p2 >= pos + 4 && (ended ==> p2
            == pos + 4),
{
    if let Ok((tag, p)) = read_u32_spec(data, pos) {
        lemma_relocs_error(data, p);
        if let Ok((x, p1)) = read_u32_spec(data, p) {
            if x < 0x4000_0000 {
                lemma_symbols_error(data, p1, (x * 4) as u32);
            }
        }
        lemma_symbols_from_moves(data, p + 4, 0);
        if let Ok((x, p1)) = read_u32_spec(data, p) {
            if x < 0x4000_0000 {
                lemma_symbols_from_moves(data, p1, (x * 4) as u32);
            }
        }
        lemma_relocs_from_moves(data, p);
    }
}

proof fn lemma_symbols_from_moves(data: Seq<u8>, pos: int, sym_len: u32)
    ensures
        symbols_from(data, pos, sym_len) matches Ok(p) ==> p >= pos,
    decreases data.len() - pos,
{
    if sym_len != 0 && sym_len as int + 4 <= u32::MAX {
        if let Ok(p1) = seek_spec(pos, sym_len + 4) {
            if let Ok((x, p2)) = read_u32_spec(data, p1) {
                if x < 0x4000_0000 && pos < p2 {
                    lemma_symbols_from_moves(data, p2, (x * 4) as u32);
                }
            }
        }
    }
}

proof fn lemma_relocs_from_moves(data: Seq<u8>, pos: int)
    ensures
        relocs_from(data, pos) matches Ok((_, p)) ==> p >= pos,
    decreases data.len() - pos,
{
    if let Ok((count, p1)) = read_u32_spec(data, pos) {
        if count != 0 {
            if let Ok((_, p2)) = read_u32_spec(data, p1) {
                if let Ok((_, p3)) = read_words_spec(data, p2, count as nat) {
                    if pos < p3 {
                        lemma_relocs_from_moves(data, p3);
                    }
                }
            }
        }
    }
}

proof fn lemma_fill_from_error(data: Seq<u8>, pos: int, h: HunkModel)
    ensures
        fill_from(data, pos, h) matches Err(e) ==> is_block_error(e),
        fill_from(data, pos, h) matches Ok((_, p)) ==> p > pos,
    decreases data.len() - pos,
{
    lemma_section_error(data, pos, h);
    if let Ok((h2, p2, ended)) = section_spec(data, pos, h) {
        if !ended && pos < p2 && p2 <= data.len() {
            lemma_fill_from_error(data, p2, h2);
        }
    }
}

proof fn lemma_fill_all_error(data: Seq<u8>, pos: int, table: Seq<u32>)
    ensures
        fill_all(data, pos, table) matches Err(e) ==> is_block_error(e),
    decreases table.len(),
{
    if table.len() > 0 {
        lemma_fill_from_error(data, pos, initial_hunk(table[0]));
        if let Ok((h, p)) = fill_from(data, pos, initial_hunk(table[0])) {
            lemma_fill_all_error(data, p, table.drop_first());
        }
    }
}

/// An executable that starts with `HUNK_HEADER` is refused for its sizes
/// exactly when its table size, first hunk or last hunk word is negative as a
/// signed word.
pub proof fn law_invalid_sizes(data: Seq<u8>)
    requires
        data.len() >= 20,
        be_u32_at(data, 0) == HUNK_HEADER,
    ensures
        (parse_spec(data) == Err::<Seq<HunkModel>, HunkError>(HunkError::InvalidSizes)) <==> (
        be_u32_at(data, 8) >= 0x8000_0000 || be_u32_at(data, 12) >= 0x8000_0000 || be_u32_at(
            data,
            16,
        ) >= 0x8000_0000),
{
    let first = be_u32_at(data, 12);
    let last = be_u32_at(data, 16);
    if last + 1 >= first && last - first + 1 < 0x8000_0000 {
        let count = (last - first + 1) as nat;
        if let Ok((table, p6)) = read_words_spec(data, 20, count) {
            lemma_fill_all_error(data, p6, table);
        }
    }
}

// ---------------------------------------------------------------------------
// What the parser does not read
// ---------------------------------------------------------------------------

/// `d1` and `d2` have the same length and the same bytes from `p` on.
pub open spec fn agree_from(d1: Seq<u8>, d2: Seq<u8>, p: int) -> bool {
    &&& 0 <= p
    &&& d1.len() == d2.len()
    &&& forall|i: int| p <= i < d1.len() ==> #[trigger] d1[i] == d2[i]
}

proof fn lemma_read_u32_agree(d1: Seq<u8>, d2: Seq<u8>, p: int, pos: int)
    requires
        agree_from(d1, d2, p),
        p <= pos,
    ensures
        read_u32_spec(d1, pos) == read_u32_spec(d2, pos),
{
    if 0 <= pos && pos + 4 <= d1.len() {
        assert(d1[pos] == d2[pos] && d1[pos + 1] == d2[pos + 1] && d1[pos + 2] == d2[pos + 2]
            && d1[pos + 3] == d2[pos + 3]);
    }
}

proof fn lemma_read_words_agree(d1: Seq<u8>, d2: Seq<u8>, p: int, pos: int, n: nat)
    requires
        agree_from(d1, d2, p),
        p <= pos,
    ensures
        read_words_spec(d1, pos, n) == read_words_spec(d2, pos, n),
{
    if n == 0 || (0 <= pos && pos + 4 * n <= d1.len()) {
        let s1 = read_words_spec(d1, pos, n).unwrap().0;
        let s2 = read_words_spec(d2, pos, n).unwrap().0;
        assert forall|i: int| 0 <= i < n implies #[trigger] s1[i] == s2[i] by {
            lemma_read_u32_agree(d1, d2, p, pos + 4 * i);
        }
        assert(s1 =~= s2);
    }
}

proof fn lemma_symbols_agree(d1: Seq<u8>, d2: Seq<u8>, p: int, pos: int, sym_len: u32)
    requires
        agree_from(d1, d2, p),
        p <= pos,
    ensures
        symbols_from(d1, pos, sym_len) == symbols_from(d2, pos, sym_len),
    decreases d1.len() - pos,
{
    if sym_len != 0 && sym_len as int + 4 <= u32::MAX {
        if let Ok(p1) = seek_spec(pos, sym_len + 4) {
            lemma_read_u32_agree(d1, d2, p, p1);
            if let Ok((x, p2)) = read_u32_spec(d1, p1) {
                if x < 0x4000_0000 && pos < p2 {
                    lemma_symbols_agree(d1, d2, p, p2, (x * 4) as u32);
                }
            }
        }
    }
}

proof fn lemma_relocs_agree(d1: Seq<u8>, d2: Seq<u8>, p: int, pos: int)
    requires
        agree_from(d1, d2, p),
        p <= pos,
    ensures
        relocs_from(d1, pos) == relocs_from(d2, pos),
    decreases d1.len() - pos,
{
    lemma_read_u32_agree(d1, d2, p, pos);
    if let Ok((count, p1)) = read_u32_spec(d1, pos) {
        if count != 0 {
            lemma_read_u32_agree(d1, d2, p, p1);
            if let Ok((_, p2)) = read_u32_spec(d1, p1) {
                lemma_read_words_agree(d1, d2, p, p2, count as nat);
                if let Ok((_, p3)) = read_words_spec(d1, p2, count as nat) {
                    if pos < p3 {
                        lemma_relocs_agree(d1, d2, p, p3);
                    }
                }
            }
        }
    }
}

proof fn lemma_read_bytes_agree(d1: Seq<u8>, d2: Seq<u8>, p: int, pos: int, size: nat)
    requires
        agree_from(d1, d2, p),
        p <= pos,
    ensures
        read_bytes_spec(d1, pos, size) == read_bytes_spec(d2, pos, size),
{
    let n = available(d1, pos, size);
    if n > 0 {
        assert forall|k: int| 0 <= k < n implies #[trigger] d1.subrange(pos, pos + n)[k] == d2.subrange(
            pos,
            pos + n,
        )[k] by {
            assert(d1[pos + k] == d2[pos + k]);
        }
        assert(d1.subrange(pos, pos + n) =~= d2.subrange(pos, pos + n));
    }
}

proof fn lemma_section_agree(d1: Seq<u8>, d2: Seq<u8>, p: int, pos: int, h: HunkModel)
    requires
        agree_from(d1, d2, p),
        p <= pos,
    ensures
        section_spec(d1, pos, h) == section_spec(d2, pos, h),
{
    lemma_read_u32_agree(d1, d2, p, pos);
    if let Ok((tag, q)) = read_u32_spec(d1, pos) {
        lemma_read_u32_agree(d1, d2, p, q);
        lemma_relocs_agree(d1, d2, p, q);
        if let Ok((x, q1)) = read_u32_spec(d1, q) {
            lemma_read_bytes_agree(d1, d2, p, q1, size_type_spec(x).0 as nat);
            if x < 0x4000_0000 {
                lemma_symbols_agree(d1, d2, p, q1, (x * 4) as u32);
            }
        }
    }
}

proof fn lemma_fill_from_agree(d1: Seq<u8>, d2: Seq<u8>, p: int, pos: int, h: HunkModel)
    requires
        agree_from(d1, d2, p),
        p <= pos,
    ensures
        fill_from(d1, pos, h) == fill_from(d2, pos, h),
    decreases d1.len() - pos,
{
    lemma_section_agree(d1, d2, p, pos, h);
    if let Ok((h2, p2, ended)) = section_spec(d1, pos, h) {
        if !ended && pos < p2 && p2 <= d1.len() {
            lemma_fill_from_agree(d1, d2, p, p2, h2);
        }
    }
}

proof fn lemma_fill_all_agree(d1: Seq<u8>, d2: Seq<u8>, p: int, pos: int, table: Seq<u32>)
    requires
        agree_from(d1, d2, p),
        p <= pos,
    ensures
        fill_all(d1, pos, table) == fill_all(d2, pos, table),
    decreases table.len(),
{
    if table.len() > 0 {
        lemma_fill_from_agree(d1, d2, p, pos, initial_hunk(table[0]));
        lemma_fill_from_error(d1, pos, initial_hunk(table[0]));
        if let Ok((h, q)) = fill_from(d1, pos, initial_hunk(table[0])) {
            lemma_fill_all_agree(d1, d2, p, q, table.drop_first());
        }
    }
}

/// The parse does not depend on the header's second word, nor on the table
/// size beyond its sign: two images that differ only there parse alike.
pub proof fn law_header_words_ignored(d1: Seq<u8>, d2: Seq<u8>)
    requires
        agree_from(d1, d2, 12),
        forall|i: int| 0 <= i < 4 ==> #[trigger] d1[i] == d2[i],
        d1.len() >= 12 ==> (be_u32_at(d1, 8) >= 0x8000_0000) == (be_u32_at(d2, 8) >= 0x8000_0000),
    ensures
        parse_spec(d1) == parse_spec(d2),
{
    if d1.len() >= 4 {
        assert(d1[0] == d2[0] && d1[1] == d2[1] && d1[2] == d2[2] && d1[3] == d2[3]);
    }
    if d1.len() >= 20 {
        lemma_read_u32_agree(d1, d2, 12, 12);
        lemma_read_u32_agree(d1, d2, 12, 16);
        let first = be_u32_at(d1, 12);
        let last = be_u32_at(d1, 16);
        if last + 1 >= first && last - first + 1 < 0x8000_0000 {
            let count = (last - first + 1) as nat;
            lemma_read_words_agree(d1, d2, 12, 20, count);
            if let Ok((table, p6)) = read_words_spec(d1, 20, count) {
                lemma_fill_all_agree(d1, d2, 12, p6, table);
            }
        }
    }
}


// ---------------------------------------------------------------------------
// The layout of symbol and relocation sections
// ---------------------------------------------------------------------------

/// Where entry `i` of a symbol section that starts at `pos` begins, when name
/// `j` is `ns[j]` long words long: each entry is a length word, the name and a
/// value word.
pub open spec fn symbol_entry_pos(pos: int, ns: Seq<u32>, i: int) -> int
    decreases i,
{
    if i <= 0 {
        pos
    } else {
        symbol_entry_pos(pos, ns, i - 1) + 8 + 4 * ns[i - 1]
    }
}

proof fn lemma_symbol_entry_pos_grows(pos: int, ns: Seq<u32>, i: int, j: int)
    requires
        0 <= i <= j,
    ensures
        symbol_entry_pos(pos, ns, i) <= symbol_entry_pos(pos, ns, j),
    decreases j - i,
{
    if i < j {
        lemma_symbol_entry_pos_grows(pos, ns, i, j - 1);
    }
}

proof fn lemma_reloc_group_pos_grows(pos: int, rs: Seq<RelocModel>, i: int, j: int)
    requires
        0 <= i <= j,
    ensures
        reloc_group_pos(pos, rs, i) <= reloc_group_pos(pos, rs, j),
    decreases j - i,
{
    if i < j {
        lemma_reloc_group_pos_grows(pos, rs, i, j - 1);
    }
}

proof fn lemma_symbol_entries(data: Seq<u8>, pos: int, ns: Seq<u32>, i: int)
    requires
        0 <= pos,
        0 <= i < ns.len(),
        data.len() <= max_file_pos(),
        forall|j: int| 0 <= j < ns.len() ==> 0 < #[trigger] ns[j] < 0x3fff_ffff,
        forall|j: int|
            0 <= j <= ns.len() ==> #[trigger] symbol_entry_pos(pos, ns, j) + 4 <= data.len(),
        forall|j: int|
            0 <= j < ns.len() ==> be_u32_at(data, #[trigger] symbol_entry_pos(pos, ns, j)) == ns[j],
        be_u32_at(data, symbol_entry_pos(pos, ns, ns.len() as int)) == 0,
    ensures
        symbols_from(data, symbol_entry_pos(pos, ns, i) + 4, (ns[i] * 4) as u32) == Ok::<
            int,
            HunkError,
        >(symbol_entry_pos(pos, ns, ns.len() as int) + 4),
    decreases ns.len() - i,
{
    lemma_symbol_entry_pos_grows(pos, ns, 0, i);
    let p = symbol_entry_pos(pos, ns, i) + 4;
    let next = symbol_entry_pos(pos, ns, i + 1);
    assert((ns[i] * 4) as u32 == ns[i] * 4);
    assert(next == p + ns[i] * 4 + 4);
    assert(symbol_entry_pos(pos, ns, i + 1) + 4 <= data.len());
    assert(seek_spec(p, (ns[i] * 4) as u32 + 4) == Ok::<int, HunkError>(next));
    assert(read_u32_spec(data, next) == Ok::<(u32, int), HunkError>((be_u32_at(data, next), next + 4)));
    if i + 1 < ns.len() {
        lemma_symbol_entries(data, pos, ns, i + 1);
        assert(be_u32_at(data, next) == ns[i + 1]);
    } else {
        assert(be_u32_at(data, next) == 0);
        assert(symbols_from(data, next + 4, 0u32) == Ok::<int, HunkError>(next + 4));
        assert(((0u32 * 4) as u32) == 0u32);
    }
}

/// A symbol section ends right after its closing zero word: its names, of
/// `ns[j]` long words each and each followed by a value word, are skipped
/// whatever they hold, so the section takes 4 + the sum of 8 + 4 * `ns[j]`
/// bytes.
pub proof fn law_symbol_section_extent(data: Seq<u8>, pos: int, ns: Seq<u32>)
    requires
        0 <= pos,
        data.len() <= max_file_pos(),
        forall|j: int| 0 <= j < ns.len() ==> 0 < #[trigger] ns[j] < 0x3fff_ffff,
        forall|j: int|
            0 <= j <= ns.len() ==> #[trigger] symbol_entry_pos(pos, ns, j) + 4 <= data.len(),
        forall|j: int|
            0 <= j < ns.len() ==> be_u32_at(data, #[trigger] symbol_entry_pos(pos, ns, j)) == ns[j],
        be_u32_at(data, symbol_entry_pos(pos, ns, ns.len() as int)) == 0,
    ensures
        symbol_spec(data, pos) == Ok::<int, HunkError>(
            symbol_entry_pos(pos, ns, ns.len() as int) + 4,
        ),
{
    assert(symbol_entry_pos(pos, ns, 0) == pos);
    assert(symbol_entry_pos(pos, ns, 0) + 4 <= data.len());
    if ns.len() > 0 {
        assert(be_u32_at(data, symbol_entry_pos(pos, ns, 0)) == ns[0]);
        lemma_symbol_entries(data, pos, ns, 0);
    }
}

/// Where group `i` of a relocation section that starts at `pos` begins: each
/// group is a count word, a target word and its offsets.
pub open spec fn reloc_group_pos(pos: int, rs: Seq<RelocModel>, i: int) -> int
    decreases i,
{
    if i <= 0 {
        pos
    } else {
        reloc_group_pos(pos, rs, i - 1) + 8 + 4 * rs[i - 1].data.len()
    }
}

/// The image at `pos` holds the groups `rs` of a relocation section, closed by
/// a zero count.
pub open spec fn holds_reloc_groups(data: Seq<u8>, pos: int, rs: Seq<RelocModel>) -> bool {
    &&& 0 <= pos
    &&& forall|i: int|
        0 <= i < rs.len() ==> 0 < (#[trigger] rs[i]).data.len() <= u32::MAX && reloc_group_pos(
            pos,
            rs,
            i + 1,
        ) <= data.len()
    &&& forall|i: int|
        0 <= i < rs.len() ==> be_u32_at(data, #[trigger] reloc_group_pos(pos, rs, i))
            == rs[i].data.len() && be_u32_at(data, reloc_group_pos(pos, rs, i) + 4) == rs[i].target
    &&& forall|i: int, m: int|
        0 <= i < rs.len() && 0 <= m < rs[i].data.len() ==> be_u32_at(
            data,
            #[trigger] reloc_group_pos(pos, rs, i) + 8 + 4 * m,
        ) == #[trigger] rs[i].data[m]
    &&& reloc_group_pos(pos, rs, rs.len() as int) + 4 <= data.len()
    &&& be_u32_at(data, reloc_group_pos(pos, rs, rs.len() as int)) == 0
}

proof fn lemma_reloc_groups_from(data: Seq<u8>, pos: int, rs: Seq<RelocModel>, i: int)
    requires
        holds_reloc_groups(data, pos, rs),
        0 <= i <= rs.len(),
    ensures
        relocs_from(data, reloc_group_pos(pos, rs, i)) == Ok::<(Seq<RelocModel>, int), HunkError>(
            (rs.skip(i), reloc_group_pos(pos, rs, rs.len() as int) + 4),
        ),
    decreases rs.len() - i,
{
    let g = reloc_group_pos(pos, rs, i);
    lemma_reloc_group_pos_grows(pos, rs, 0, i);
    if i == rs.len() {
        assert(rs.skip(i) =~= Seq::<RelocModel>::empty());
    } else {
        let r = rs[i];
        let c = r.data.len();
        assert(reloc_group_pos(pos, rs, i + 1) == g + 8 + 4 * c);
        assert(be_u32_at(data, g) == c);
        assert(be_u32_at(data, g + 4) == r.target);
        let words = read_words_spec(data, g + 8, c).unwrap().0;
        assert forall|m: int| 0 <= m < c implies #[trigger] words[m] == r.data[m] by {
            assert(be_u32_at(data, reloc_group_pos(pos, rs, i) + 8 + 4 * m) == rs[i].data[m]);
        }
        assert(words =~= r.data);
        lemma_reloc_groups_from(data, pos, rs, i + 1);
        assert(seq![RelocModel { target: r.target, data: words }] + rs.skip(i + 1) =~= rs.skip(i));
    }
}

/// A relocation section gives all its groups, in order: group `i` has the
/// `i`-th target word and the `i`-th run of offsets, and the section ends right
/// after its zero count.
pub proof fn law_reloc_section_groups(data: Seq<u8>, pos: int, rs: Seq<RelocModel>)
    requires
        holds_reloc_groups(data, pos, rs),
    ensures
        relocs_from(data, pos) == Ok::<(Seq<RelocModel>, int), HunkError>(
            (rs, reloc_group_pos(pos, rs, rs.len() as int) + 4),
        ),
{
    lemma_reloc_groups_from(data, pos, rs, 0);
    assert(rs.skip(0) =~= rs);
}

} // verus!
