//! A model of the Amiga's 16 MB of memory and the loader that places the
//! hunks of an executable in it: code first from `EXE_START`, then data, then
//! bss, and finally patches the 32-bit relocations of code and data hunks.
//!
//! Memory layout: 0 .. 512K is kept for the ROM and the executable starts at
//! 512K. The bss hunks are placed right after the data hunks; what follows
//! them is free for the heap.
use vstd::prelude::*;
use crate::bytes::{
    be_u16_at, be_u32_at, set_be_u16, set_be_u32, be_read_u16, be_read_u32, be_write_u16,
    be_write_u32, lemma_read_after_write_u32, lemma_write_u32_frame,
};
use crate::hunk::{
    Hunk, HunkError, HunkModel, HunkParser, HunkType, RelocModel, hunks_view, relocs_view, parse_spec,
    max_file_pos,
};
use vstd::pervasive::VecAdditionalExecFns;

verus! {

/// The size of the Amiga's memory.
pub const MEMORY_SIZE: usize = 16 * 1024 * 1024;

/// Where an executable's first code hunk is placed.
pub const EXE_START: usize = 512 * 1024;

/// Why a parsed executable cannot be loaded.
#[derive(Clone, Copy, Debug, PartialEq, Eq, Structural)]
pub enum LoadError {
    /// The hunks do not fit between `EXE_START` and the end of memory.
    OutOfMemory,
    /// A relocation names a hunk the executable does not have.
    BadRelocTarget,
    /// A relocated word lies outside memory.
    RelocOutOfRange,
    /// A relocated address does not fit a word.
    AddressOverflow,
}

/// The emulated machine and its memory.
pub struct Amiga {
    pub dummy: u32,
    pub memory: Vec<u8>,
}

impl View for Amiga {
    type V = Seq<u8>;

    open spec fn view(&self) -> Seq<u8> {
        self.memory@
    }
}

/// `s` with `t` written over it from `at` on.
pub open spec fn splice(s: Seq<u8>, at: int, t: Seq<u8>) -> Seq<u8> {
    Seq::new(s.len(), |k: int| if at <= k < at + t.len() { t[k - at] } else { s[k] })
}

/// `n` zero bytes.
pub open spec fn zeros(n: nat) -> Seq<u8> {
    Seq::new(n, |k: int| 0u8)
}

// ---------------------------------------------------------------------------
// The layout of hunks in memory
// ---------------------------------------------------------------------------

/// A hunk of kind `t` that has section bytes takes room in memory.
pub open spec fn is_placed(h: HunkModel, t: HunkType) -> bool {
    h.hunk_type == t && h.code_data is Some
}

/// Where the loader stands after the first `n` hunks when it places the hunks
/// of kind `t` one after the other from `offset`.
pub open spec fn placed_end(hs: Seq<HunkModel>, t: HunkType, offset: int, n: int) -> int
    decreases n,
{
    if n <= 0 {
        offset
    } else {
        placed_end(hs, t, offset, n - 1) + if is_placed(hs[n - 1], t) {
            hs[n - 1].data_size as int
        } else {
            0
        }
    }
}

/// The hunks after placing those of kind `t` from `offset`: each hunk of kind
/// `t`, with or without section bytes, records where the loader stood.
pub open spec fn placed_hunks(hs: Seq<HunkModel>, t: HunkType, offset: int) -> Seq<HunkModel> {
    Seq::new(
        hs.len(),
        |i: int|
            if hs[i].hunk_type == t {
                HunkModel { memory_offset: placed_end(hs, t, offset, i) as usize, ..hs[i] }
            } else {
                hs[i]
            },
    )
}

/// Memory after copying the section bytes of the first `n` hunks of kind `t`
/// to their places.
pub open spec fn load_mem(mem: Seq<u8>, hs: Seq<HunkModel>, t: HunkType, offset: int, n: int) -> Seq<
    u8,
>
    decreases n,
{
    if n <= 0 {
        mem
    } else {
        let m = load_mem(mem, hs, t, offset, n - 1);
        let h = hs[n - 1];
        if is_placed(h, t) {
            splice(m, placed_end(hs, t, offset, n - 1), h.code_data.unwrap().take(h.data_size as int))
        } else {
            m
        }
    }
}

/// Memory after clearing the places of the first `n` bss hunks that have
/// section bytes.
pub open spec fn clear_mem(mem: Seq<u8>, hs: Seq<HunkModel>, offset: int, n: int) -> Seq<u8>
    decreases n,
{
    if n <= 0 {
        mem
    } else {
        let m = clear_mem(mem, hs, offset, n - 1);
        let h = hs[n - 1];
        if is_placed(h, HunkType::Bss) {
            splice(m, placed_end(hs, HunkType::Bss, offset, n - 1), zeros(h.data_size as nat))
        } else {
            m
        }
    }
}

/// Every hunk of kind `t` with section bytes holds at least `data_size` of them.
pub open spec fn sections_cover(hs: Seq<HunkModel>, t: HunkType) -> bool {
    forall|i: int|
        0 <= i < hs.len() && is_placed(#[trigger] hs[i], t) ==> hs[i].code_data.unwrap().len()
            >= hs[i].data_size
}

/// `placed_end` only grows with `n`.
pub proof fn lemma_placed_end_monotone(hs: Seq<HunkModel>, t: HunkType, offset: int, i: int, j: int)
    requires
        0 <= i <= j,
    ensures
        placed_end(hs, t, offset, i) <= placed_end(hs, t, offset, j),
    decreases j - i,
{
    if i < j {
        lemma_placed_end_monotone(hs, t, offset, i, j - 1);
    }
}

/// Placing the hunks of one kind changes only their offsets, so where the
/// hunks of any kind go afterwards is the same.
pub proof fn lemma_placed_end_after_placing(
    hs: Seq<HunkModel>,
    t: HunkType,
    offset: int,
    t2: HunkType,
    offset2: int,
    n: int,
)
    requires
        0 <= n <= hs.len(),
    ensures
        placed_end(placed_hunks(hs, t, offset), t2, offset2, n) == placed_end(hs, t2, offset2, n),
    decreases n,
{
    if n > 0 {
        lemma_placed_end_after_placing(hs, t, offset, t2, offset2, n - 1);
    }
}

/// Each hunk of kind `t` holds its section bytes at its place after loading:
/// the places are one after the other, so no later copy overwrites an earlier
/// one, and memory before `offset` or after the last place keeps its bytes.
pub proof fn law_loaded_sections_in_place(mem: Seq<u8>, hs: Seq<HunkModel>, t: HunkType, offset: int, n: int)
    requires
        0 <= offset,
        0 <= n <= hs.len(),
        placed_end(hs, t, offset, n) <= mem.len(),
        sections_cover(hs, t),
    ensures
        load_mem(mem, hs, t, offset, n).len() == mem.len(),
        forall|i: int, k: int|
            0 <= i < n && is_placed(hs[i], t) && 0 <= k < hs[i].data_size ==> #[trigger] load_mem(
                mem,
                hs,
                t,
                offset,
                n,
            )[placed_end(hs, t, offset, i) + k] == #[trigger] hs[i].code_data.unwrap()[k],
        forall|k: int|
            0 <= k < mem.len() && (k < offset || placed_end(hs, t, offset, n) <= k) ==> #[trigger] load_mem(
                mem,
                hs,
                t,
                offset,
                n,
            )[k] == mem[k],
    decreases n,
{
    if n > 0 {
        lemma_placed_end_monotone(hs, t, offset, n - 1, n);
        law_loaded_sections_in_place(mem, hs, t, offset, n - 1);
        assert forall|i: int| 0 <= i < n - 1 implies #[trigger] placed_end(hs, t, offset, i)
            + (if is_placed(hs[i], t) { hs[i].data_size as int } else { 0 }) <= placed_end(hs, t, offset, n - 1) by {
            lemma_placed_end_monotone(hs, t, offset, i + 1, n - 1);
        }
        lemma_placed_end_monotone(hs, t, offset, 0, n - 1);
        let prev = load_mem(mem, hs, t, offset, n - 1);
        assert forall|i: int, k: int|
            0 <= i < n && is_placed(hs[i], t) && 0 <= k < hs[i].data_size implies #[trigger] load_mem(
                mem,
                hs,
                t,
                offset,
                n,
            )[placed_end(hs, t, offset, i) + k] == #[trigger] hs[i].code_data.unwrap()[k] by {
            lemma_placed_end_monotone(hs, t, offset, 0, i);
            lemma_placed_end_monotone(hs, t, offset, i + 1, n);
            assert(hs[i].code_data.unwrap().len() >= hs[i].data_size);
            if i < n - 1 {
                lemma_placed_end_monotone(hs, t, offset, i + 1, n - 1);
                assert(prev[placed_end(hs, t, offset, i) + k] == hs[i].code_data.unwrap()[k]);
            }
        }
    }
}

// ---------------------------------------------------------------------------
// Relocation
// ---------------------------------------------------------------------------

/// One relocation of a hunk placed at `base` against a hunk placed at
/// `target`: the word at `base + off` gets `target` added to it.
pub open spec fn reloc_patch(mem: Seq<u8>, base: u32, target: u32, off: u32) -> Result<Seq<u8>, LoadError> {
    let at = base + off;
    if at > u32::MAX {
        Err(LoadError::AddressOverflow)
    } else if at + 4 > mem.len() {
        Err(LoadError::RelocOutOfRange)
    } else {
        let v = be_u32_at(mem, at);
        if target + v > u32::MAX {
            Err(LoadError::AddressOverflow)
        } else {
            Ok(set_be_u32(mem, at, (target + v) as u32))
        }
    }
}

/// Memory after the first `n` relocations of one group, and the error that
/// stopped them, if any; memory stays as the last good relocation left it.
pub open spec fn patch_all(mem: Seq<u8>, base: u32, target: u32, offs: Seq<u32>, n: int) -> (
    Seq<u8>,
    Option<LoadError>,
)
    decreases n,
{
    if n <= 0 {
        (mem, None)
    } else {
        let (m, e) = patch_all(mem, base, target, offs, n - 1);
        if e is Some {
            (m, e)
        } else {
            match reloc_patch(m, base, target, offs[n - 1]) {
                Ok(m2) => (m2, None),
                Err(err) => (m, Some(err)),
            }
        }
    }
}

/// Memory after the first `n` relocation groups of a hunk placed at `base`.
pub open spec fn reloc_groups(
    mem: Seq<u8>,
    base: u32,
    hs: Seq<HunkModel>,
    rs: Seq<RelocModel>,
    n: int,
) -> (Seq<u8>, Option<LoadError>)
    decreases n,
{
    if n <= 0 {
        (mem, None)
    } else {
        let (m, e) = reloc_groups(mem, base, hs, rs, n - 1);
        if e is Some {
            (m, e)
        } else if rs[n - 1].target >= hs.len() {
            (m, Some(LoadError::BadRelocTarget))
        } else {
            patch_all(
                m,
                base,
                hs[rs[n - 1].target as int].memory_offset as u32,
                rs[n - 1].data,
                rs[n - 1].data.len() as int,
            )
        }
    }
}

/// Memory after the relocations of hunk `h`.
pub open spec fn hunk_relocs(mem: Seq<u8>, h: HunkModel, hs: Seq<HunkModel>) -> (Seq<u8>, Option<LoadError>) {
    match h.reloc_32 {
        None => (mem, None),
        Some(rs) => reloc_groups(mem, h.memory_offset as u32, hs, rs, rs.len() as int),
    }
}

/// Memory after relocating the code and data hunks among the first `n`.
pub open spec fn reloc_hunks(mem: Seq<u8>, hs: Seq<HunkModel>, n: int) -> (Seq<u8>, Option<LoadError>)
    decreases n,
{
    if n <= 0 {
        (mem, None)
    } else {
        let (m, e) = reloc_hunks(mem, hs, n - 1);
        if e is Some {
            (m, e)
        } else if hs[n - 1].hunk_type == HunkType::Code || hs[n - 1].hunk_type == HunkType::Data {
            hunk_relocs(m, hs[n - 1], hs)
        } else {
            (m, None)
        }
    }
}


/// The error of a step that gives no value.
pub open spec fn err_of(res: Result<(), LoadError>) -> Option<LoadError> {
    match res {
        Ok(()) => None,
        Err(e) => Some(e),
    }
}

/// Once a relocation of a group fails, the later ones change nothing.
pub proof fn lemma_patch_all_stuck(mem: Seq<u8>, base: u32, target: u32, offs: Seq<u32>, i: int, j: int)
    requires
        0 <= i <= j,
        patch_all(mem, base, target, offs, i).1 is Some,
    ensures
        patch_all(mem, base, target, offs, j) == patch_all(mem, base, target, offs, i),
    decreases j - i,
{
    if i < j {
        lemma_patch_all_stuck(mem, base, target, offs, i, j - 1);
    }
}

/// Once a relocation group fails, the later groups change nothing.
pub proof fn lemma_reloc_groups_stuck(
    mem: Seq<u8>,
    base: u32,
    hs: Seq<HunkModel>,
    rs: Seq<RelocModel>,
    i: int,
    j: int,
)
    requires
        0 <= i <= j,
        reloc_groups(mem, base, hs, rs, i).1 is Some,
    ensures
        reloc_groups(mem, base, hs, rs, j) == reloc_groups(mem, base, hs, rs, i),
    decreases j - i,
{
    if i < j {
        lemma_reloc_groups_stuck(mem, base, hs, rs, i, j - 1);
    }
}

/// Once the relocation of a hunk fails, the later hunks change nothing.
pub proof fn lemma_reloc_hunks_stuck(mem: Seq<u8>, hs: Seq<HunkModel>, i: int, j: int)
    requires
        0 <= i <= j,
        reloc_hunks(mem, hs, i).1 is Some,
    ensures
        reloc_hunks(mem, hs, j) == reloc_hunks(mem, hs, i),
    decreases j - i,
{
    if i < j {
        lemma_reloc_hunks_stuck(mem, hs, i, j - 1);
    }
}

/// The whole load of hunks `hs` into memory `mem`: code from `EXE_START`, then
/// data, then bss, then relocation. Gives the memory, the hunks with their
/// places, and the three ends or the error.
pub open spec fn load_spec(mem: Seq<u8>, hs: Seq<HunkModel>) -> (
    Seq<u8>,
    Seq<HunkModel>,
    Result<(usize, usize, usize), LoadError>,
) {
    let n = hs.len() as int;
    let code_end = placed_end(hs, HunkType::Code, EXE_START as int, n);
    let data_end = placed_end(hs, HunkType::Data, code_end, n);
    let bss_end = placed_end(hs, HunkType::Bss, data_end, n);
    if code_end > MEMORY_SIZE || data_end > MEMORY_SIZE || bss_end > MEMORY_SIZE {
        (mem, hs, Err(LoadError::OutOfMemory))
    } else {
        let hs1 = placed_hunks(hs, HunkType::Code, EXE_START as int);
        let hs2 = placed_hunks(hs1, HunkType::Data, code_end);
        let hs3 = placed_hunks(hs2, HunkType::Bss, data_end);
        let m1 = load_mem(mem, hs, HunkType::Code, EXE_START as int, n);
        let m2 = load_mem(m1, hs1, HunkType::Data, code_end, n);
        let m3 = clear_mem(m2, hs2, data_end, n);
        let (m4, e) = reloc_hunks(m3, hs3, n);
        (
            m4,
            hs3,
            match e {
                Some(err) => Err(err),
                None => Ok((code_end as usize, data_end as usize, bss_end as usize)),
            },
        )
    }
}

// ---------------------------------------------------------------------------
// What relocation does to memory
// ---------------------------------------------------------------------------

/// The long word at `a` includes byte `k`.
pub open spec fn covers(a: int, k: int) -> bool {
    a <= k < a + 4
}

/// The long words at `a` and `b` share no byte.
pub open spec fn apart(a: int, b: int) -> bool {
    a + 4 <= b || b + 4 <= a
}

/// The address of relocation `j` of a group applied at `base`.
pub open spec fn group_site(base: u32, offs: Seq<u32>, j: int) -> int {
    base + offs[j]
}

/// Byte `k` lies in one of the first `n` relocated long words of a group.
pub open spec fn in_group_sites(base: u32, offs: Seq<u32>, n: int, k: int) -> bool {
    exists|j: int| 0 <= j < n && covers(#[trigger] group_site(base, offs, j), k)
}

/// A write of a long word leaves the long word at an address apart from it as
/// it was.
proof fn lemma_write_keeps_apart_word(s: Seq<u8>, a: int, v: u32, b: int)
    requires
        0 <= a,
        a + 4 <= s.len(),
        0 <= b,
        b + 4 <= s.len(),
        apart(a, b),
    ensures
        be_u32_at(set_be_u32(s, a, v), b) == be_u32_at(s, b),
{
    lemma_write_u32_frame(s, a, v, b);
    lemma_write_u32_frame(s, a, v, b + 1);
    lemma_write_u32_frame(s, a, v, b + 2);
    lemma_write_u32_frame(s, a, v, b + 3);
}

/// A relocation group whose long words share no byte adds the target's address
/// to each of its long words, and leaves every other byte of memory as it was.
pub proof fn law_group_relocation(mem: Seq<u8>, base: u32, target: u32, offs: Seq<u32>, n: int)
    requires
        0 <= n <= offs.len(),
        patch_all(mem, base, target, offs, n).1 is None,
        forall|j1: int, j2: int|
            0 <= j1 < n && 0 <= j2 < n && j1 != j2 ==> apart(
                #[trigger] group_site(base, offs, j1),
                #[trigger] group_site(base, offs, j2),
            ),
    ensures
        patch_all(mem, base, target, offs, n).0.len() == mem.len(),
        forall|j: int|
            0 <= j < n ==> #[trigger] group_site(base, offs, j) + 4 <= mem.len() && be_u32_at(
                patch_all(mem, base, target, offs, n).0,
                group_site(base, offs, j),
            ) == be_u32_at(mem, group_site(base, offs, j)) + target,
        forall|k: int|
            0 <= k < mem.len() && !in_group_sites(base, offs, n, k) ==> #[trigger] patch_all(
                mem,
                base,
                target,
                offs,
                n,
            ).0[k] == mem[k],
    decreases n,
{
    if n > 0 {
        let (m1, e1) = patch_all(mem, base, target, offs, n - 1);
        assert(e1 is None);
        law_group_relocation(mem, base, target, offs, n - 1);
        let at = group_site(base, offs, n - 1);
        assert(at == base + offs[n - 1]);
        let m2 = patch_all(mem, base, target, offs, n).0;
        assert(at + 4 <= m1.len());
        // the bytes of the new long word were not touched before
        assert forall|k: int| at <= k < at + 4 implies #[trigger] m1[k] == mem[k] by {
            if in_group_sites(base, offs, n - 1, k) {
                let j = choose|j: int| 0 <= j < n - 1 && covers(#[trigger] group_site(base, offs, j), k);
                assert(apart(group_site(base, offs, j), group_site(base, offs, n - 1)));
            }
        }
        assert(m1[at] == mem[at] && m1[at + 1] == mem[at + 1] && m1[at + 2] == mem[at + 2] && m1[at + 3]
            == mem[at + 3]);
        assert(be_u32_at(m1, at) == be_u32_at(mem, at));
        let v = be_u32_at(m1, at);
        assert(m2 == set_be_u32(m1, at, (target + v) as u32));
        lemma_read_after_write_u32(m1, at, (target + v) as u32);
        assert forall|j: int| 0 <= j < n implies #[trigger] group_site(base, offs, j) + 4 <= mem.len()
            && be_u32_at(m2, group_site(base, offs, j)) == be_u32_at(mem, group_site(base, offs, j))
            + target by {
            if j < n - 1 {
                assert(apart(group_site(base, offs, j), group_site(base, offs, n - 1)));
                lemma_write_keeps_apart_word(m1, at, (target + v) as u32, group_site(base, offs, j));
            }
        }
        assert forall|k: int| 0 <= k < mem.len() && !in_group_sites(base, offs, n, k) implies #[trigger] m2[k]
            == mem[k] by {
            assert(!covers(group_site(base, offs, n - 1), k));
            assert(!in_group_sites(base, offs, n - 1, k)) by {
                if in_group_sites(base, offs, n - 1, k) {
                    let j = choose|j: int| 0 <= j < n - 1 && covers(#[trigger] group_site(base, offs, j), k);
                    assert(covers(group_site(base, offs, j), k));
                }
            }
            lemma_write_u32_frame(m1, at, (target + v) as u32, k);
        }
    }
}

/// The address of relocation `j` of group `g` of a hunk placed at `base`.
pub open spec fn groups_site(base: u32, rs: Seq<RelocModel>, g: int, j: int) -> int {
    base + rs[g].data[j]
}

/// Byte `k` lies in a relocated long word of one of the first `n` groups.
pub open spec fn in_groups_sites(base: u32, rs: Seq<RelocModel>, n: int, k: int) -> bool {
    exists|g: int, j: int|
        0 <= g < n && 0 <= j < rs[g].data.len() && covers(#[trigger] groups_site(base, rs, g, j), k)
}

/// The address a relocation against hunk `t` adds: where hunk `t` was placed.
pub open spec fn target_address(hs: Seq<HunkModel>, t: usize) -> u32 {
    hs[t as int].memory_offset as u32
}

/// Two long words hold the same value when their four bytes are the same.
proof fn lemma_same_word(s1: Seq<u8>, s2: Seq<u8>, a: int)
    requires
        0 <= a,
        a + 4 <= s1.len(),
        a + 4 <= s2.len(),
        forall|k: int| a <= k < a + 4 ==> #[trigger] s1[k] == s2[k],
    ensures
        be_u32_at(s1, a) == be_u32_at(s2, a),
{
    assert(s1[a] == s2[a] && s1[a + 1] == s2[a + 1] && s1[a + 2] == s2[a + 2] && s1[a + 3] == s2[a + 3]);
}

/// The relocation groups of a hunk placed at `base`, whose long words share no
/// byte, add to each long word the address of that group's own target hunk,
/// and leave every other byte of memory as it was.
pub proof fn law_hunk_relocation(mem: Seq<u8>, base: u32, hs: Seq<HunkModel>, rs: Seq<RelocModel>, n: int)
    requires
        0 <= n <= rs.len(),
        reloc_groups(mem, base, hs, rs, n).1 is None,
        forall|g1: int, j1: int, g2: int, j2: int|
            0 <= g1 < n && 0 <= j1 < rs[g1].data.len() && 0 <= g2 < n && 0 <= j2 < rs[g2].data.len()
                && (g1 != g2 || j1 != j2) ==> apart(
                #[trigger] groups_site(base, rs, g1, j1),
                #[trigger] groups_site(base, rs, g2, j2),
            ),
    ensures
        reloc_groups(mem, base, hs, rs, n).0.len() == mem.len(),
        forall|g: int| 0 <= g < n ==> (#[trigger] rs[g]).target < hs.len(),
        forall|g: int, j: int|
            #![trigger groups_site(base, rs, g, j)]
            0 <= g < n && 0 <= j < rs[g].data.len() ==> groups_site(base, rs, g, j) + 4 <= mem.len() && be_u32_at(
                reloc_groups(mem, base, hs, rs, n).0,
                groups_site(base, rs, g, j),
            ) == be_u32_at(mem, groups_site(base, rs, g, j)) + target_address(hs, rs[g].target),
        forall|k: int|
            0 <= k < mem.len() && !in_groups_sites(base, rs, n, k) ==> #[trigger] reloc_groups(
                mem,
                base,
                hs,
                rs,
                n,
            ).0[k] == mem[k],
    decreases n,
{
    if n > 0 {
        let (m1, e1) = reloc_groups(mem, base, hs, rs, n - 1);
        assert(e1 is None);
        law_hunk_relocation(mem, base, hs, rs, n - 1);
        let r = rs[n - 1];
        assert(r.target < hs.len());
        let t = target_address(hs, r.target);
        let len = r.data.len() as int;
        assert(reloc_groups(mem, base, hs, rs, n) == patch_all(m1, base, t, r.data, len));
        let m2 = patch_all(m1, base, t, r.data, len).0;
        assert(reloc_groups(mem, base, hs, rs, n).0 == m2);
        assert forall|j1: int, j2: int|
            0 <= j1 < len && 0 <= j2 < len && j1 != j2 implies apart(
            #[trigger] group_site(base, r.data, j1),
            #[trigger] group_site(base, r.data, j2),
        ) by {
            assert(group_site(base, r.data, j1) == groups_site(base, rs, n - 1, j1));
            assert(group_site(base, r.data, j2) == groups_site(base, rs, n - 1, j2));
        }
        law_group_relocation(m1, base, t, r.data, len);
        assert forall|g: int| 0 <= g < n implies (#[trigger] rs[g]).target < hs.len() by {
            if g == n - 1 {
                assert(rs[g] == r);
            }
        }
        // the new group's long words were not touched by the earlier groups
        assert forall|j: int| 0 <= j < len implies be_u32_at(m1, #[trigger] group_site(base, r.data, j))
            == be_u32_at(mem, group_site(base, r.data, j)) by {
            let a = group_site(base, r.data, j);
            assert(a == groups_site(base, rs, n - 1, j));
            assert forall|k: int| a <= k < a + 4 implies #[trigger] m1[k] == mem[k] by {
                if in_groups_sites(base, rs, n - 1, k) {
                    let (g, j2) = choose|g: int, j2: int|
                        0 <= g < n - 1 && 0 <= j2 < rs[g].data.len() && covers(
                            #[trigger] groups_site(base, rs, g, j2),
                            k,
                        );
                    assert(apart(groups_site(base, rs, g, j2), groups_site(base, rs, n - 1, j)));
                }
            }
            lemma_same_word(m1, mem, a);
        }
        assert forall|g: int, j: int|
            #![trigger groups_site(base, rs, g, j)]
            0 <= g < n && 0 <= j < rs[g].data.len() implies (groups_site(base, rs, g, j) + 4 <= mem.len() && be_u32_at(
            m2,
            groups_site(base, rs, g, j),
        ) == be_u32_at(mem, groups_site(base, rs, g, j)) + target_address(hs, rs[g].target)) by {
            let a = groups_site(base, rs, g, j);
            if g < n - 1 {
                // an earlier group's long word is not touched by this group
                assert forall|k: int| a <= k < a + 4 implies #[trigger] m2[k] == m1[k] by {
                    if in_group_sites(base, r.data, len, k) {
                        let j2 = choose|j2: int| 0 <= j2 < len && covers(#[trigger] group_site(base, r.data, j2), k);
                        assert(group_site(base, r.data, j2) == groups_site(base, rs, n - 1, j2));
                        assert(apart(groups_site(base, rs, g, j), groups_site(base, rs, n - 1, j2)));
                    }
                }
                lemma_same_word(m2, m1, a);
            } else {
                assert(a == group_site(base, r.data, j));
            }
        }
        assert forall|k: int| 0 <= k < mem.len() && !in_groups_sites(base, rs, n, k) implies #[trigger] m2[k]
            == mem[k] by {
            assert(!in_groups_sites(base, rs, n - 1, k)) by {
                if in_groups_sites(base, rs, n - 1, k) {
                    let (g, j2) = choose|g: int, j2: int|
                        0 <= g < n - 1 && 0 <= j2 < rs[g].data.len() && covers(
                            #[trigger] groups_site(base, rs, g, j2),
                            k,
                        );
                    assert(covers(groups_site(base, rs, g, j2), k));
                }
            }
            assert(!in_group_sites(base, r.data, len, k)) by {
                if in_group_sites(base, r.data, len, k) {
                    let j2 = choose|j2: int| 0 <= j2 < len && covers(#[trigger] group_site(base, r.data, j2), k);
                    assert(group_site(base, r.data, j2) == groups_site(base, rs, n - 1, j2));
                    assert(covers(groups_site(base, rs, n - 1, j2), k));
                }
            }
        }
    }
}

/// The relocation groups that relocation applies for hunk `h`: all of those of
/// a code or data hunk, none of any other hunk.
pub open spec fn applied_groups(h: HunkModel) -> Seq<RelocModel> {
    if h.hunk_type == HunkType::Code || h.hunk_type == HunkType::Data {
        match h.reloc_32 {
            Some(rs) => rs,
            None => Seq::empty(),
        }
    } else {
        Seq::empty()
    }
}

/// Offset `j` of applied group `g` of hunk `h` exists, among the first `n` hunks.
pub open spec fn valid_site(hs: Seq<HunkModel>, n: int, h: int, g: int, j: int) -> bool {
    0 <= h < n && 0 <= g < applied_groups(hs[h]).len() && 0 <= j < applied_groups(hs[h])[g].data.len()
}

/// The address of offset `j` of applied group `g` of hunk `h`, from the place
/// of hunk `h`.
pub open spec fn hunk_site(hs: Seq<HunkModel>, h: int, g: int, j: int) -> int {
    (hs[h].memory_offset as u32) + applied_groups(hs[h])[g].data[j]
}

/// Byte `k` lies in a relocated long word of one of the first `n` hunks.
pub open spec fn in_hunk_sites(hs: Seq<HunkModel>, n: int, k: int) -> bool {
    exists|h: int, g: int, j: int| valid_site(hs, n, h, g, j) && covers(#[trigger] hunk_site(hs, h, g, j), k)
}

/// Relocating the code and data hunks, whose relocated long words share no
/// byte, adds to the long word at each offset of each relocation group of each
/// code or data hunk, counted from that hunk's place, the place of the group's
/// target hunk; every other byte of memory stays as it was.
pub proof fn law_code_data_relocation(mem: Seq<u8>, hs: Seq<HunkModel>, n: int)
    requires
        0 <= n <= hs.len(),
        reloc_hunks(mem, hs, n).1 is None,
        forall|h1: int, g1: int, j1: int, h2: int, g2: int, j2: int|
            valid_site(hs, n, h1, g1, j1) && valid_site(hs, n, h2, g2, j2) && (h1 != h2 || g1 != g2 || j1
                != j2) ==> apart(#[trigger] hunk_site(hs, h1, g1, j1), #[trigger] hunk_site(hs, h2, g2, j2)),
    ensures
        reloc_hunks(mem, hs, n).0.len() == mem.len(),
        forall|h: int, g: int|
            0 <= h < n && 0 <= g < applied_groups(hs[h]).len() ==> (#[trigger] applied_groups(hs[h])[g]).target
                < hs.len(),
        forall|h: int, g: int, j: int|
            #![trigger hunk_site(hs, h, g, j)]
            valid_site(hs, n, h, g, j) ==> hunk_site(hs, h, g, j) + 4 <= mem.len() && be_u32_at(
                reloc_hunks(mem, hs, n).0,
                hunk_site(hs, h, g, j),
            ) == be_u32_at(mem, hunk_site(hs, h, g, j)) + target_address(hs, applied_groups(hs[h])[g].target),
        forall|k: int|
            0 <= k < mem.len() && !in_hunk_sites(hs, n, k) ==> #[trigger] reloc_hunks(mem, hs, n).0[k]
                == mem[k],
    decreases n,
{
    if n > 0 {
        let (m1, e1) = reloc_hunks(mem, hs, n - 1);
        assert(e1 is None);
        law_code_data_relocation(mem, hs, n - 1);
        let hn = hs[n - 1];
        let rs = applied_groups(hn);
        let base = hn.memory_offset as u32;
        let len = rs.len() as int;
        let m2 = reloc_hunks(mem, hs, n).0;
        if (hn.hunk_type == HunkType::Code || hn.hunk_type == HunkType::Data) && hn.reloc_32 is Some {
            assert(hn.reloc_32 == Some(rs));
            assert(reloc_hunks(mem, hs, n) == reloc_groups(m1, base, hs, rs, len));
            assert forall|g1: int, j1: int, g2: int, j2: int|
                0 <= g1 < len && 0 <= j1 < rs[g1].data.len() && 0 <= g2 < len && 0 <= j2 < rs[g2].data.len()
                    && (g1 != g2 || j1 != j2) implies apart(
                #[trigger] groups_site(base, rs, g1, j1),
                #[trigger] groups_site(base, rs, g2, j2),
            ) by {
                assert(groups_site(base, rs, g1, j1) == hunk_site(hs, n - 1, g1, j1));
                assert(groups_site(base, rs, g2, j2) == hunk_site(hs, n - 1, g2, j2));
                assert(valid_site(hs, n, n - 1, g1, j1));
                assert(valid_site(hs, n, n - 1, g2, j2));
            }
            law_hunk_relocation(m1, base, hs, rs, len);
        } else {
            assert(m2 == m1);
            assert(rs.len() == 0);
        }
        assert(m2.len() == mem.len());
        assert forall|h: int, g: int| 0 <= h < n && 0 <= g < applied_groups(hs[h]).len() implies (
        #[trigger] applied_groups(hs[h])[g]).target < hs.len() by {
            if h == n - 1 {
                assert(applied_groups(hs[h])[g] == rs[g]);
            }
        }
        assert forall|h: int, g: int, j: int|
            #![trigger hunk_site(hs, h, g, j)]
            valid_site(hs, n, h, g, j) implies (hunk_site(hs, h, g, j) + 4 <= mem.len() && be_u32_at(
            m2,
            hunk_site(hs, h, g, j),
        ) == be_u32_at(mem, hunk_site(hs, h, g, j)) + target_address(hs, applied_groups(hs[h])[g].target)) by {
            let a = hunk_site(hs, h, g, j);
            if h < n - 1 {
                assert(valid_site(hs, n - 1, h, g, j));
                // an earlier hunk's long word is not touched by this hunk's groups
                assert forall|k: int| a <= k < a + 4 implies #[trigger] m2[k] == m1[k] by {
                    if in_groups_sites(base, rs, len, k) {
                        let (g2, j2) = choose|g2: int, j2: int|
                            0 <= g2 < len && 0 <= j2 < rs[g2].data.len() && covers(
                                #[trigger] groups_site(base, rs, g2, j2),
                                k,
                            );
                        assert(groups_site(base, rs, g2, j2) == hunk_site(hs, n - 1, g2, j2));
                        assert(valid_site(hs, n, n - 1, g2, j2));
                        assert(apart(hunk_site(hs, h, g, j), hunk_site(hs, n - 1, g2, j2)));
                    }
                }
                lemma_same_word(m2, m1, a);
            } else {
                assert(a == groups_site(base, rs, g, j));
                // this hunk's long word was not touched by the earlier hunks
                assert forall|k: int| a <= k < a + 4 implies #[trigger] m1[k] == mem[k] by {
                    if in_hunk_sites(hs, n - 1, k) {
                        let (h2, g2, j2) = choose|h2: int, g2: int, j2: int|
                            valid_site(hs, n - 1, h2, g2, j2) && covers(#[trigger] hunk_site(hs, h2, g2, j2), k);
                        assert(valid_site(hs, n, h2, g2, j2));
                        assert(apart(hunk_site(hs, h2, g2, j2), hunk_site(hs, n - 1, g, j)));
                    }
                }
                lemma_same_word(m1, mem, a);
            }
        }
        assert forall|k: int| 0 <= k < mem.len() && !in_hunk_sites(hs, n, k) implies #[trigger] m2[k]
            == mem[k] by {
            assert(!in_hunk_sites(hs, n - 1, k)) by {
                if in_hunk_sites(hs, n - 1, k) {
                    let (h2, g2, j2) = choose|h2: int, g2: int, j2: int|
                        valid_site(hs, n - 1, h2, g2, j2) && covers(#[trigger] hunk_site(hs, h2, g2, j2), k);
                    assert(valid_site(hs, n, h2, g2, j2));
                }
            }
            assert(!in_groups_sites(base, rs, len, k)) by {
                if in_groups_sites(base, rs, len, k) {
                    let (g2, j2) = choose|g2: int, j2: int|
                        0 <= g2 < len && 0 <= j2 < rs[g2].data.len() && covers(
                            #[trigger] groups_site(base, rs, g2, j2),
                            k,
                        );
                    assert(groups_site(base, rs, g2, j2) == hunk_site(hs, n - 1, g2, j2));
                    assert(valid_site(hs, n, n - 1, g2, j2));
                }
            }
        }
    }
}

/// Clearing the bss places from `offset` on keeps every byte below `offset`.
proof fn lemma_clear_mem_below(mem: Seq<u8>, hs: Seq<HunkModel>, offset: int, n: int, k: int)
    requires
        0 <= k < offset,
        k < mem.len(),
    ensures
        clear_mem(mem, hs, offset, n).len() == mem.len(),
        clear_mem(mem, hs, offset, n)[k] == mem[k],
    decreases n,
{
    if n > 0 {
        lemma_clear_mem_below(mem, hs, offset, n - 1, k);
        lemma_placed_end_monotone(hs, HunkType::Bss, offset, 0, n - 1);
    }
}

/// After a successful load whose relocated long words share no byte, each
/// relocated long word of a code or data hunk that lies within the hunk's own
/// section bytes holds the value that those bytes give, plus the place of the
/// relocation's target hunk.
pub proof fn law_load_relocation(mem: Seq<u8>, hs: Seq<HunkModel>)
    requires
        mem.len() == MEMORY_SIZE,
        sections_cover(hs, HunkType::Code),
        sections_cover(hs, HunkType::Data),
        load_spec(mem, hs).2 is Ok,
        forall|h1: int, g1: int, j1: int, h2: int, g2: int, j2: int|
            valid_site(load_spec(mem, hs).1, hs.len() as int, h1, g1, j1) && valid_site(
                load_spec(mem, hs).1,
                hs.len() as int,
                h2,
                g2,
                j2,
            ) && (h1 != h2 || g1 != g2 || j1 != j2) ==> apart(
                #[trigger] hunk_site(load_spec(mem, hs).1, h1, g1, j1),
                #[trigger] hunk_site(load_spec(mem, hs).1, h2, g2, j2),
            ),
    ensures
        forall|h: int, g: int, j: int|
            #![trigger hunk_site(load_spec(mem, hs).1, h, g, j)]
            valid_site(load_spec(mem, hs).1, hs.len() as int, h, g, j) && hs[h].code_data is Some
                && applied_groups(hs[h])[g].data[j] + 4 <= hs[h].data_size ==> be_u32_at(
                load_spec(mem, hs).0,
                hunk_site(load_spec(mem, hs).1, h, g, j),
            ) == be_u32_at(hs[h].code_data.unwrap(), applied_groups(hs[h])[g].data[j] as int)
                + target_address(load_spec(mem, hs).1, applied_groups(hs[h])[g].target),
{
    let n = hs.len() as int;
    let code_end = placed_end(hs, HunkType::Code, EXE_START as int, n);
    let data_end = placed_end(hs, HunkType::Data, code_end, n);
    let hs1 = placed_hunks(hs, HunkType::Code, EXE_START as int);
    let hs2 = placed_hunks(hs1, HunkType::Data, code_end);
    let hs3 = placed_hunks(hs2, HunkType::Bss, data_end);
    let m1 = load_mem(mem, hs, HunkType::Code, EXE_START as int, n);
    let m2 = load_mem(m1, hs1, HunkType::Data, code_end, n);
    let m3 = clear_mem(m2, hs2, data_end, n);
    assert(load_spec(mem, hs).1 == hs3);
    assert(load_spec(mem, hs).0 == reloc_hunks(m3, hs3, n).0);
    assert(reloc_hunks(m3, hs3, n).1 is None);
    lemma_placed_end_monotone(hs, HunkType::Code, EXE_START as int, 0, n);
    lemma_placed_end_monotone(hs, HunkType::Data, code_end, 0, n);
    law_loaded_sections_in_place(mem, hs, HunkType::Code, EXE_START as int, n);
    assert forall|i: int| 0 <= i < n && is_placed(#[trigger] hs1[i], HunkType::Data) implies hs1[i].code_data.unwrap().len()
        >= hs1[i].data_size by {
        assert(is_placed(hs[i], HunkType::Data));
    }
    lemma_placed_end_after_placing(hs, HunkType::Code, EXE_START as int, HunkType::Data, code_end, n);
    law_loaded_sections_in_place(m1, hs1, HunkType::Data, code_end, n);
    assert(m1.len() == mem.len() && m2.len() == mem.len());
    lemma_clear_mem_below(m2, hs2, data_end, n, 0);
    law_code_data_relocation(m3, hs3, n);
    assert forall|h: int, g: int, j: int|
        #![trigger hunk_site(hs3, h, g, j)]
        valid_site(hs3, n, h, g, j) && hs[h].code_data is Some && applied_groups(hs[h])[g].data[j] + 4
            <= hs[h].data_size implies be_u32_at(reloc_hunks(m3, hs3, n).0, hunk_site(hs3, h, g, j))
        == be_u32_at(hs[h].code_data.unwrap(), applied_groups(hs[h])[g].data[j] as int) + target_address(
        hs3,
        applied_groups(hs[h])[g].target,
    ) by {
        assert(applied_groups(hs3[h]) == applied_groups(hs[h]));
        let o = applied_groups(hs[h])[g].data[j] as int;
        let c = hs[h].code_data.unwrap();
        let p = hs3[h].memory_offset as int;
        if hs[h].hunk_type == HunkType::Code {
            assert(is_placed(hs[h], HunkType::Code));
            lemma_placed_end_monotone(hs, HunkType::Code, EXE_START as int, 0, h);
            lemma_placed_end_monotone(hs, HunkType::Code, EXE_START as int, h + 1, n);
            assert(hs1[h].memory_offset == placed_end(hs, HunkType::Code, EXE_START as int, h) as usize);
            assert(hs2[h] == hs1[h]);
            assert(hs3[h] == hs2[h]);
            assert(p == placed_end(hs, HunkType::Code, EXE_START as int, h));
            assert forall|k: int| p + o <= k < p + o + 4 implies #[trigger] m3[k] == c[k - p] by {
                assert(m1[placed_end(hs, HunkType::Code, EXE_START as int, h) + (k - p)] == c[k - p]);
                lemma_clear_mem_below(m2, hs2, data_end, n, k);
            }
        } else {
            assert(hs1[h] == hs[h]);
            assert(is_placed(hs1[h], HunkType::Data));
            lemma_placed_end_monotone(hs1, HunkType::Data, code_end, 0, h);
            lemma_placed_end_monotone(hs1, HunkType::Data, code_end, h + 1, n);
            assert(hs2[h].memory_offset == placed_end(hs1, HunkType::Data, code_end, h) as usize);
            assert(hs3[h] == hs2[h]);
            assert(p == placed_end(hs1, HunkType::Data, code_end, h));
            assert forall|k: int| p + o <= k < p + o + 4 implies #[trigger] m3[k] == c[k - p] by {
                assert(m2[placed_end(hs1, HunkType::Data, code_end, h) + (k - p)] == hs1[h].code_data.unwrap()[k - p]);
                lemma_clear_mem_below(m2, hs2, data_end, n, k);
            }
        }
        assert(hunk_site(hs3, h, g, j) == p + o);
        assert(m3[p + o] == c[o] && m3[p + o + 1] == c[o + 1] && m3[p + o + 2] == c[o + 2] && m3[p + o + 3]
            == c[o + 3]);
        assert(be_u32_at(m3, p + o) == be_u32_at(c, o));
    }
}

// ---------------------------------------------------------------------------
// The machine
// ---------------------------------------------------------------------------

impl Amiga {
    /// Memory has its full size.
    pub open spec fn wf(&self) -> bool {
        self.memory@.len() == MEMORY_SIZE
    }

    /// A machine whose memory is all zero.
    pub fn new() -> (r: Amiga)
        ensures
            r.wf(),
            r.dummy == 0,
            r@ == zeros(MEMORY_SIZE as nat),
    {
        let memory: Vec<u8> = vec![0u8; MEMORY_SIZE];
        assert(memory@ =~= zeros(MEMORY_SIZE as nat));
        Amiga { dummy: 0, memory }
    }

    /// The big-endian long word at `offset`.
    pub fn get_amiga_memory_long(&self, offset: u32) -> (r: u32)
        requires
            self.wf(),
            offset + 4 <= MEMORY_SIZE,
        ensures
            r == be_u32_at(self@, offset as int),
    {
        let o = offset as usize;
        let v0 = self.memory[o] as u32;
        let v1 = self.memory[o + 1] as u32;
        let v2 = self.memory[o + 2] as u32;
        let v3 = self.memory[o + 3] as u32;
        (v0 << 24u32) | (v1 << 16u32) | (v2 << 8u32) | v3
    }

    /// Writes `value` big-endian as the long word at `offset`.
    pub fn set_amiga_memory_long(&mut self, offset: u32, value: u32)
        requires
            old(self).wf(),
            offset + 4 <= MEMORY_SIZE,
        ensures
            final(self).wf(),
            final(self).dummy == old(self).dummy,
            final(self)@ == set_be_u32(old(self)@, offset as int, value),
    {
        let o = offset as usize;
        self.memory.set(o, ((value >> 24u32) & 0xffu32) as u8);
        self.memory.set(o + 1, ((value >> 16u32) & 0xffu32) as u8);
        self.memory.set(o + 2, ((value >> 8u32) & 0xffu32) as u8);
        self.memory.set(o + 3, (value & 0xffu32) as u8);
    }

    /// Parses an executable image into its hunks.
    pub fn parse_executable(data: &[u8]) -> (res: Result<Vec<Hunk>, HunkError>)
        requires
            data@.len() <= max_file_pos(),
        ensures
            match parse_spec(data@) {
                Ok(hs) => res matches Ok(v) && hunks_view(v@) == hs,
                Err(e) => res matches Err(e2) && e2 == e,
            },
            res matches Ok(v) ==> data@.len() >= 20 && v@.len() == be_u32_at(data@, 16) - be_u32_at(
                data@,
                12,
            ) + 1,
    {
        HunkParser::parse_bytes(data)
    }

    /// Copies the first `size` bytes of `src` to `dest` from `dest_offset` on.
    pub fn copy_data(src: &[u8], dest: &mut Vec<u8>, dest_offset: usize, size: usize)
        requires
            size <= src@.len(),
            dest_offset + size <= old(dest)@.len(),
        ensures
            final(dest)@ == splice(old(dest)@, dest_offset as int, src@.take(size as int)),
    {
        let mut i: usize = 0;
        while i < size
            invariant
                i <= size,
                size <= src@.len(),
                dest_offset + size <= old(dest)@.len(),
                dest@.len() == old(dest)@.len(),
                dest_offset + size <= dest.len(),
                dest@ == splice(old(dest)@, dest_offset as int, src@.take(i as int)),
            decreases size - i,
        {
            dest.set(dest_offset + i, src[i]);
            i = i + 1;
            assert(dest@ =~= splice(old(dest)@, dest_offset as int, src@.take(i as int)));
        }
    }

    /// Zeroes `size` bytes of `dest` from `dest_offset` on.
    pub fn clear_memory(dest: &mut Vec<u8>, dest_offset: usize, size: usize)
        requires
            dest_offset + size <= old(dest)@.len(),
        ensures
            final(dest)@ == splice(old(dest)@, dest_offset as int, zeros(size as nat)),
    {
        let mut i: usize = 0;
        while i < size
            invariant
                i <= size,
                dest_offset + size <= old(dest)@.len(),
                dest@.len() == old(dest)@.len(),
                dest_offset + size <= dest.len(),
                dest@ == splice(old(dest)@, dest_offset as int, zeros(i as nat)),
            decreases size - i,
        {
            dest.set(dest_offset + i, 0u8);
            i = i + 1;
            assert(dest@ =~= splice(old(dest)@, dest_offset as int, zeros(i as nat)));
        }
    }

    /// The end of the places that the hunks of kind `t` take from `offset` on,
    /// if it is within memory.
    pub fn placement_end(hunks: &Vec<Hunk>, hunk_type: HunkType, offset: usize) -> (r: Option<usize>)
        requires
            offset <= MEMORY_SIZE,
        ensures
            match r {
                Some(e) => e == placed_end(hunks_view(hunks@), hunk_type, offset as int, hunks@.len() as int)
                    && e <= MEMORY_SIZE,
                None => placed_end(hunks_view(hunks@), hunk_type, offset as int, hunks@.len() as int)
                    > MEMORY_SIZE,
            },
    {
        let ghost hs = hunks_view(hunks@);
        let mut curr_offset = offset;
        let mut i: usize = 0;
        while i < hunks.len()
            invariant
                i <= hunks@.len(),
                hs == hunks_view(hunks@),
                curr_offset <= MEMORY_SIZE,
                curr_offset == placed_end(hs, hunk_type, offset as int, i as int),
            decreases hunks@.len() - i,
        {
            if hunks[i].hunk_type == hunk_type && hunks[i].code_data.is_some() {
                if hunks[i].data_size > MEMORY_SIZE - curr_offset {
                    proof {
                        lemma_placed_end_monotone(hs, hunk_type, offset as int, i + 1, hunks@.len() as int);
                    }
                    return None;
                }
                curr_offset = curr_offset + hunks[i].data_size;
            }
            i = i + 1;
        }
        Some(curr_offset)
    }

    /// Places the hunks of kind `hunk_type` one after the other from `offset`:
    /// each records where it goes, and those with section bytes have
    /// `data_size` of them copied there. Returns where the last one ends.
    pub fn load_code_data(&mut self, hunks: &mut Vec<Hunk>, hunk_type: HunkType, offset: usize) -> (end: usize)
        requires
            old(self).wf(),
            placed_end(hunks_view(old(hunks)@), hunk_type, offset as int, old(hunks)@.len() as int)
                <= MEMORY_SIZE,
            sections_cover(hunks_view(old(hunks)@), hunk_type),
        ensures
            final(self).wf(),
            final(self).dummy == old(self).dummy,
            end == placed_end(hunks_view(old(hunks)@), hunk_type, offset as int, old(hunks)@.len() as int),
            final(self)@ == load_mem(
                old(self)@,
                hunks_view(old(hunks)@),
                hunk_type,
                offset as int,
                old(hunks)@.len() as int,
            ),
            hunks_view(final(hunks)@) == placed_hunks(hunks_view(old(hunks)@), hunk_type, offset as int),
    {
        let ghost hs = hunks_view(hunks@);
        let ghost n = hunks@.len() as int;
        let mut curr_offset = offset;
        let mut i: usize = 0;
        while i < hunks.len()
            invariant
                self.wf(),
                self.dummy == old(self).dummy,
                hunks@.len() == n,
                n == old(hunks)@.len(),
                hs == hunks_view(old(hunks)@),
                i <= n,
                placed_end(hs, hunk_type, offset as int, n) <= MEMORY_SIZE,
                sections_cover(hs, hunk_type),
                curr_offset == placed_end(hs, hunk_type, offset as int, i as int),
                self@ == load_mem(old(self)@, hs, hunk_type, offset as int, i as int),
                forall|k: int|
                    0 <= k < i ==> #[trigger] hunks@[k]@ == placed_hunks(hs, hunk_type, offset as int)[k],
                forall|k: int| i <= k < n ==> #[trigger] hunks@[k] == old(hunks)@[k],
            decreases n - i,
        {
            proof {
                lemma_placed_end_monotone(hs, hunk_type, offset as int, i + 1, n);
                assert(hunks@[i as int]@ == hs[i as int]);
            }
            if hunks[i].hunk_type == hunk_type {
                hunks[i].memory_offset = curr_offset;
                let size = hunks[i].data_size;
                match &hunks[i].code_data {
                    Some(data) => {
                        Self::copy_data(data.as_slice(), &mut self.memory, curr_offset, size);
                        curr_offset = curr_offset + size;
                    },
                    None => {},
                }
            }
            i = i + 1;
        }
        proof {
            assert(hunks_view(hunks@) =~= placed_hunks(hs, hunk_type, offset as int));
        }
        curr_offset
    }

    /// Places the bss hunks one after the other from `offset`: each records
    /// where it goes, and those with section bytes have `data_size` bytes of
    /// memory cleared there. Returns where the last one ends.
    fn init_bss_sections(&mut self, hunks: &mut Vec<Hunk>, offset: usize) -> (end: usize)
        requires
            old(self).wf(),
            placed_end(hunks_view(old(hunks)@), HunkType::Bss, offset as int, old(hunks)@.len() as int)
                <= MEMORY_SIZE,
        ensures
            final(self).wf(),
            final(self).dummy == old(self).dummy,
            end == placed_end(
                hunks_view(old(hunks)@),
                HunkType::Bss,
                offset as int,
                old(hunks)@.len() as int,
            ),
            final(self)@ == clear_mem(
                old(self)@,
                hunks_view(old(hunks)@),
                offset as int,
                old(hunks)@.len() as int,
            ),
            hunks_view(final(hunks)@) == placed_hunks(hunks_view(old(hunks)@), HunkType::Bss, offset as int),
    {
        let ghost hs = hunks_view(hunks@);
        let ghost n = hunks@.len() as int;
        let mut curr_offset = offset;
        let mut i: usize = 0;
        while i < hunks.len()
            invariant
                self.wf(),
                self.dummy == old(self).dummy,
                hunks@.len() == n,
                n == old(hunks)@.len(),
                hs == hunks_view(old(hunks)@),
                i <= n,
                placed_end(hs, HunkType::Bss, offset as int, n) <= MEMORY_SIZE,
                curr_offset == placed_end(hs, HunkType::Bss, offset as int, i as int),
                self@ == clear_mem(old(self)@, hs, offset as int, i as int),
                forall|k: int|
                    0 <= k < i ==> #[trigger] hunks@[k]@ == placed_hunks(hs, HunkType::Bss, offset as int)[k],
                forall|k: int| i <= k < n ==> #[trigger] hunks@[k] == old(hunks)@[k],
            decreases n - i,
        {
            proof {
                lemma_placed_end_monotone(hs, HunkType::Bss, offset as int, i + 1, n);
                assert(hunks@[i as int]@ == hs[i as int]);
            }
            if hunks[i].hunk_type == HunkType::Bss {
                hunks[i].memory_offset = curr_offset;
                let size = hunks[i].data_size;
                if hunks[i].code_data.is_some() {
                    Self::clear_memory(&mut self.memory, curr_offset, size);
                    curr_offset = curr_offset + size;
                }
            }
            i = i + 1;
        }
        proof {
            assert(hunks_view(hunks@) =~= placed_hunks(hs, HunkType::Bss, offset as int));
        }
        curr_offset
    }

    /// Applies one relocation group of a hunk placed at `base` against a hunk
    /// placed at `target`: adds `target` to each long word at `base + offset`.
    fn reloc_group(&mut self, base: u32, target: u32, offsets: &Vec<u32>) -> (res: Result<(), LoadError>)
        requires
            old(self).wf(),
        ensures
            final(self).wf(),
            final(self).dummy == old(self).dummy,
            (final(self)@, err_of(res)) == patch_all(
                old(self)@,
                base,
                target,
                offsets@,
                offsets@.len() as int,
            ),
    {
        let mut i: usize = 0;
        while i < offsets.len()
            invariant
                self.wf(),
                self.dummy == old(self).dummy,
                i <= offsets@.len(),
                (self@, None::<LoadError>) == patch_all(old(self)@, base, target, offsets@, i as int),
            decreases offsets@.len() - i,
        {
            let offset = offsets[i];
            let write_target = match base.checked_add(offset) {
                None => {
                    proof {
                        lemma_patch_all_stuck(old(self)@, base, target, offsets@, i + 1, offsets@.len() as int);
                    }
                    return Err(LoadError::AddressOverflow);
                },
                Some(w) => w,
            };
            if write_target as u64 + 4 > MEMORY_SIZE as u64 {
                proof {
                    lemma_patch_all_stuck(old(self)@, base, target, offsets@, i + 1, offsets@.len() as int);
                }
                return Err(LoadError::RelocOutOfRange);
            }
            let value = self.get_amiga_memory_long(write_target);
            let new_value = match target.checked_add(value) {
                None => {
                    proof {
                        lemma_patch_all_stuck(old(self)@, base, target, offsets@, i + 1, offsets@.len() as int);
                    }
                    return Err(LoadError::AddressOverflow);
                },
                Some(v) => v,
            };
            self.set_amiga_memory_long(write_target, new_value);
            i = i + 1;
        }
        Ok(())
    }

    /// Applies the relocations of `hunk` against the places of `hunks`.
    pub fn reloc_hunk(&mut self, hunk: &Hunk, hunks: &Vec<Hunk>) -> (res: Result<(), LoadError>)
        requires
            old(self).wf(),
        ensures
            final(self).wf(),
            final(self).dummy == old(self).dummy,
            (final(self)@, err_of(res)) == hunk_relocs(old(self)@, hunk@, hunks_view(hunks@)),
    {
        match &hunk.reloc_32 {
            None => Ok(()),
            Some(reloc_data) => {
                let ghost hs = hunks_view(hunks@);
                let ghost rs = relocs_view(reloc_data@);
                let hunk_offset = hunk.memory_offset as u32;
                let mut i: usize = 0;
                while i < reloc_data.len()
                    invariant
                        self.wf(),
                        self.dummy == old(self).dummy,
                        i <= reloc_data@.len(),
                        hs == hunks_view(hunks@),
                        rs == relocs_view(reloc_data@),
                        hunk@.reloc_32 == Some(rs),
                        hunk_offset == hunk@.memory_offset as u32,
                        (self@, None::<LoadError>) == reloc_groups(old(self)@, hunk_offset, hs, rs, i as int),
                    decreases reloc_data@.len() - i,
                {
                    let reloc = &reloc_data[i];
                    assert(rs[i as int] == reloc@);
                    if reloc.target >= hunks.len() {
                        proof {
                            lemma_reloc_groups_stuck(old(self)@, hunk_offset, hs, rs, i + 1, rs.len() as int);
                        }
                        return Err(LoadError::BadRelocTarget);
                    }
                    let target_hunk_offset = hunks[reloc.target].memory_offset as u32;
                    assert(hs[reloc.target as int] == hunks@[reloc.target as int]@);
                    match self.reloc_group(hunk_offset, target_hunk_offset, &reloc.data) {
                        Err(e) => {
                            proof {
                                lemma_reloc_groups_stuck(old(self)@, hunk_offset, hs, rs, i + 1, rs.len() as int);
                            }
                            return Err(e);
                        },
                        Ok(()) => {},
                    }
                    i = i + 1;
                }
                Ok(())
            },
        }
    }

    /// Applies the relocations of every code and data hunk, in order.
    pub fn reloc_code_data(&mut self, hunks: &Vec<Hunk>) -> (res: Result<(), LoadError>)
        requires
            old(self).wf(),
        ensures
            final(self).wf(),
            final(self).dummy == old(self).dummy,
            (final(self)@, err_of(res)) == reloc_hunks(
                old(self)@,
                hunks_view(hunks@),
                hunks@.len() as int,
            ),
    {
        let ghost hs = hunks_view(hunks@);
        let mut i: usize = 0;
        while i < hunks.len()
            invariant
                self.wf(),
                self.dummy == old(self).dummy,
                i <= hunks@.len(),
                hs == hunks_view(hunks@),
                (self@, None::<LoadError>) == reloc_hunks(old(self)@, hs, i as int),
            decreases hunks@.len() - i,
        {
            let hunk = &hunks[i];
            assert(hs[i as int] == hunk@);
            if hunk.hunk_type == HunkType::Code || hunk.hunk_type == HunkType::Data {
                match self.reloc_hunk(hunk, hunks) {
                    Err(e) => {
                        proof {
                            lemma_reloc_hunks_stuck(old(self)@, hs, i + 1, hunks@.len() as int);
                        }
                        return Err(e);
                    },
                    Ok(()) => {},
                }
            }
            i = i + 1;
        }
        Ok(())
    }

    /// Loads parsed hunks into memory: code hunks from `EXE_START`, then data
    /// hunks, then bss hunks, each kind one after the other, then relocates
    /// code and data. Returns where the code, data and bss end.
    pub fn load_to_memory(&mut self, hunks: &mut Vec<Hunk>) -> (res: Result<(usize, usize, usize), LoadError>)
        requires
            old(self).wf(),
            sections_cover(hunks_view(old(hunks)@), HunkType::Code),
            sections_cover(hunks_view(old(hunks)@), HunkType::Data),
        ensures
            final(self).wf(),
            final(self).dummy == old(self).dummy,
            (final(self)@, hunks_view(final(hunks)@), res) == load_spec(old(self)@, hunks_view(old(hunks)@)),
            res matches Ok((c, d, b)) ==> EXE_START <= c <= d <= b <= MEMORY_SIZE,
    {
        let ghost hs = hunks_view(hunks@);
        let ghost n = hunks@.len() as int;
        let code_end = match Self::placement_end(hunks, HunkType::Code, EXE_START) {
            None => {
                return Err(LoadError::OutOfMemory);
            },
            Some(e) => e,
        };
        let data_end = match Self::placement_end(hunks, HunkType::Data, code_end) {
            None => {
                return Err(LoadError::OutOfMemory);
            },
            Some(e) => e,
        };
        let bss_end = match Self::placement_end(hunks, HunkType::Bss, data_end) {
            None => {
                return Err(LoadError::OutOfMemory);
            },
            Some(e) => e,
        };
        proof {
            lemma_placed_end_monotone(hs, HunkType::Code, EXE_START as int, 0, n);
            lemma_placed_end_monotone(hs, HunkType::Data, code_end as int, 0, n);
            lemma_placed_end_monotone(hs, HunkType::Bss, data_end as int, 0, n);
        }
        let ghost hs1 = placed_hunks(hs, HunkType::Code, EXE_START as int);
        let ghost hs2 = placed_hunks(hs1, HunkType::Data, code_end as int);
        let c = self.load_code_data(hunks, HunkType::Code, EXE_START);
        proof {
            lemma_placed_end_after_placing(hs, HunkType::Code, EXE_START as int, HunkType::Data, code_end as int, n);
            lemma_placed_end_after_placing(hs, HunkType::Code, EXE_START as int, HunkType::Bss, data_end as int, n);
            assert forall|i: int| 0 <= i < n && is_placed(#[trigger] hs1[i], HunkType::Data) implies hs1[i].code_data.unwrap().len() >= hs1[i].data_size by {
                assert(is_placed(hs[i], HunkType::Data));
            }
        }
        let d = self.load_code_data(hunks, HunkType::Data, c);
        proof {
            lemma_placed_end_after_placing(hs1, HunkType::Data, code_end as int, HunkType::Bss, data_end as int, n);
        }
        let b = self.init_bss_sections(hunks, d);
        let ghost m3 = self@;
        let ghost hs3 = hunks_view(hunks@);
        assert(hs3 == placed_hunks(hs2, HunkType::Bss, data_end as int));
        assert(hunks@.len() == n);
        let r = self.reloc_code_data(hunks);
        assert(self@ == reloc_hunks(m3, hs3, n).0);
        assert(load_spec(old(self)@, hs).1 == hs3);
        assert(load_spec(old(self)@, hs).0 == self@);
        match r {
            Err(e) => Err(e),
            Ok(()) => Ok((c, d, b)),
        }
    }
}


// ---------------------------------------------------------------------------
// The memory interface of the 68000 core
// ---------------------------------------------------------------------------

/// The big-endian long word at `address`.
pub fn m68k_read_memory_32(amiga: &Amiga, address: u32) -> (r: u32)
    requires
        amiga.wf(),
        address + 4 <= MEMORY_SIZE,
    ensures
        r == be_u32_at(amiga@, address as int),
{
    be_read_u32(amiga.memory.as_slice(), address as usize)
}

/// The big-endian word at `address`.
pub fn m68k_read_memory_16(amiga: &Amiga, address: u32) -> (r: u16)
    requires
        amiga.wf(),
        address + 2 <= MEMORY_SIZE,
    ensures
        r == be_u16_at(amiga@, address as int),
{
    be_read_u16(amiga.memory.as_slice(), address as usize)
}

/// The byte at `address`.
pub fn m68k_read_memory_8(amiga: &Amiga, address: u32) -> (r: u32)
    requires
        amiga.wf(),
        address < MEMORY_SIZE,
    ensures
        r == amiga@[address as int] as u32,
{
    amiga.memory[address as usize] as u32
}

/// Writes the low byte of `value` at `address`.
pub fn m68k_write_memory_8(amiga: &mut Amiga, address: u32, value: u32)
    requires
        old(amiga).wf(),
        address < MEMORY_SIZE,
    ensures
        final(amiga).wf(),
        final(amiga).dummy == old(amiga).dummy,
        final(amiga)@ == old(amiga)@.update(address as int, value as u8),
{
    amiga.memory.set(address as usize, value as u8);
}

/// Writes the low half of `value` big-endian at `address`.
pub fn m68k_write_memory_16(amiga: &mut Amiga, address: u32, value: u32)
    requires
        old(amiga).wf(),
        address + 2 <= MEMORY_SIZE,
    ensures
        final(amiga).wf(),
        final(amiga).dummy == old(amiga).dummy,
        final(amiga)@ == set_be_u16(old(amiga)@, address as int, value as u16),
{
    be_write_u16(&mut amiga.memory, address as usize, value as u16);
}

/// Writes `value` big-endian at `address`.
pub fn m68k_write_memory_32(amiga: &mut Amiga, address: u32, value: u32)
    requires
        old(amiga).wf(),
        address + 4 <= MEMORY_SIZE,
    ensures
        final(amiga).wf(),
        final(amiga).dummy == old(amiga).dummy,
        final(amiga)@ == set_be_u32(old(amiga)@, address as int, value),
{
    be_write_u32(&mut amiga.memory, address as usize, value);
}

/// The long word at `address`, as the disassembler reads it.
pub fn m68k_read_disassembler_32(amiga: &Amiga, address: u32) -> (r: u32)
    requires
        amiga.wf(),
        address + 4 <= MEMORY_SIZE,
    ensures
        r == be_u32_at(amiga@, address as int),
{
    m68k_read_memory_32(amiga, address)
}

/// The word at `address`, as the disassembler reads it.
pub fn m68k_read_disassembler_16(amiga: &Amiga, address: u32) -> (r: u32)
    requires
        amiga.wf(),
        address + 2 <= MEMORY_SIZE,
    ensures
        r == be_u16_at(amiga@, address as int) as u32,
{
    m68k_read_memory_16(amiga, address) as u32
}

/// The byte at `address`, as the disassembler reads it.
pub fn m68k_read_disassembler_8(amiga: &Amiga, address: u32) -> (r: u32)
    requires
        amiga.wf(),
        address < MEMORY_SIZE,
    ensures
        r == amiga@[address as int] as u32,
{
    m68k_read_memory_8(amiga, address)
}

} // verus!
