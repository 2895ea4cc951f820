//! The decisions of the archive scanner: which paths of a directory walk are
//! scanned, and which of the files found in embedded archives are written out.
//!
//! The scanner tries to unpack an archive at every offset of a file. The same
//! archive is often found at several offsets, so a file is written only when
//! no file with the same SHA-256 digest was written before, and each offset
//! that yields at least one new file gets a directory of its own, numbered
//! from 0.
use vstd::prelude::*;
use sha2::{Digest, Sha256};

verus! {

/// What SHA-256 makes of `data`.
pub uninterp spec fn sha256_of(data: Seq<u8>) -> Seq<u8>;

/// The SHA-256 digest of `data`, by `sha2::Sha256::digest`. Its value is named,
/// not stated; the crate's output type fixes its length at 32 bytes.
#[verifier::external_body]
fn sha256_digest(data: &[u8]) -> (r: Vec<u8>)
    ensures
        r@ == sha256_of(data@),
        r@.len() == 32,
{
    Sha256::digest(data).to_vec()
}

/// How deep a directory walk goes: the directory's own entries only, or every
/// level below it.
pub fn max_scan_depth(recursive: bool) -> (r: usize)
    ensures
        r == if recursive {
            usize::MAX
        } else {
            1
        },
{
    if !recursive {
        1
    } else {
        usize::MAX
    }
}

/// How many offsets of a file of `data_len` bytes are tried as the start of an
/// archive: every offset but the last three.
pub fn scan_offset_count(data_len: usize) -> (r: usize)
    requires
        data_len >= 3,
    ensures
        r == data_len - 3,
{
    data_len - 3
}

/// The name ending of the listings the scanner writes, which it does not scan.
pub open spec fn listing_suffix() -> Seq<char> {
    seq!['.', 'l', 'i', 's', 't', 'i', 'n', 'g']
}

/// `s` ends with `suffix`.
pub open spec fn ends_with(s: Seq<char>, suffix: Seq<char>) -> bool {
    s.len() >= suffix.len() && s.subrange(s.len() - suffix.len(), s.len() as int) == suffix
}

/// A walked path is scanned when it is a file whose name does not end in
/// `.listing`.
pub fn is_scan_candidate(filename: &str, is_file: bool) -> (r: bool)
    ensures
        r == (is_file && !ends_with(filename@, listing_suffix())),
{
    let suffix: Vec<char> = vec!['.', 'l', 'i', 's', 't', 'i', 'n', 'g'];
    assert(suffix@ =~= listing_suffix());
    let mut chars: Vec<char> = Vec::new();
    for c in it: filename.chars()
        invariant
            chars@ == it.seq().take(it.index() as int),
    {
        chars.push(c);
        assert(chars@ =~= it.seq().take(it.index() + 1));
    }
    assert(chars@ =~= filename@);
    if !is_file {
        return false;
    }
    if chars.len() < suffix.len() {
        return true;
    }
    let start = chars.len() - suffix.len();
    let mut i: usize = 0;
    while i < suffix.len()
        invariant
            i <= suffix@.len(),
            suffix@ == listing_suffix(),
            chars@ == filename@,
            start + suffix@.len() == chars.len(),
            is_file,
            forall|k: int| 0 <= k < i ==> chars@[start + k] == suffix@[k],
        decreases suffix@.len() - i,
    {
        if chars[start + i] != suffix[i] {
            assert(chars@.subrange(start as int, chars@.len() as int)[i as int] != suffix@[i as int]);
            return true;
        }
        i = i + 1;
    }
    assert(chars@.subrange(start as int, chars@.len() as int) =~= suffix@);
    false
}

/// What the scanner has written so far.
pub struct ScanState {
    /// The digests of the files written, in the order they were written.
    pub seen: Vec<Vec<u8>>,
    /// The number of the directory the next new files go to.
    pub dir_entry: i32,
    /// Whether the archive being read has yielded a new file.
    pub did_write: bool,
}

impl ScanState {
    /// The digests written so far, as plain values.
    pub open spec fn seen_view(&self) -> Seq<Seq<u8>> {
        self.seen@.map_values(|d: Vec<u8>| d@)
    }

    /// No digest is recorded twice, and no directory number is negative.
    pub open spec fn wf(&self) -> bool {
        &&& self.seen_view().no_duplicates()
        &&& self.dir_entry >= 0
    }

    /// Nothing written yet: the first new files go to directory 0.
    pub fn new() -> (r: ScanState)
        ensures
            r.wf(),
            r.seen_view() == Seq::<Seq<u8>>::empty(),
            r.dir_entry == 0,
            !r.did_write,
    {
        let r = ScanState { seen: Vec::new(), dir_entry: 0, did_write: false };
        assert(r.seen_view() =~= Seq::<Seq<u8>>::empty());
        r
    }

    /// Starts reading the files of an archive found at a new offset.
    pub fn begin_archive(&mut self)
        ensures
            final(self).seen == old(self).seen,
            final(self).dir_entry == old(self).dir_entry,
            !final(self).did_write,
    {
        self.did_write = false;
    }

    /// Whether `digest` is among those written.
    fn has_seen(&self, digest: &Vec<u8>) -> (r: bool)
        ensures
            r == self.seen_view().contains(digest@),
    {
        let mut i: usize = 0;
        while i < self.seen.len()
            invariant
                i <= self.seen@.len(),
                forall|k: int| 0 <= k < i ==> self.seen@[k]@ != digest@,
            decreases self.seen@.len() - i,
        {
            if bytes_equal(&self.seen[i], digest) {
                assert(self.seen_view()[i as int] == digest@);
                return true;
            }
            i = i + 1;
        }
        assert forall|k: int| 0 <= k < self.seen_view().len() implies self.seen_view()[k] != digest@ by {
            assert(self.seen_view()[k] == self.seen@[k]@);
        }
        false
    }

    /// Decides whether a file of the current archive with contents `data` is
    /// written: it is when no file with the same digest was written before,
    /// and its digest is then recorded.
    pub fn admit_entry(&mut self, data: &[u8]) -> (write: bool)
        requires
            old(self).wf(),
        ensures
            final(self).wf(),
            write == !old(self).seen_view().contains(sha256_of(data@)),
            final(self).seen_view() == if write {
                old(self).seen_view().push(sha256_of(data@))
            } else {
                old(self).seen_view()
            },
            final(self).seen_view().contains(sha256_of(data@)),
            final(self).dir_entry == old(self).dir_entry,
            final(self).did_write == (old(self).did_write || write),
    {
        let digest = sha256_digest(data);
        if self.has_seen(&digest) {
            false
        } else {
            let ghost before = self.seen_view();
            self.seen.push(digest);
            proof {
                assert(self.seen_view() =~= before.push(sha256_of(data@)));
                assert(self.seen_view()[before.len() as int] == sha256_of(data@));
                assert forall|a: int, b: int|
                    0 <= a < b < self.seen_view().len() implies self.seen_view()[a] != self.seen_view()[b] by {
                    if b < before.len() {
                        assert(before[a] != before[b]);
                    } else {
                        assert(before.contains(before[a]));
                    }
                }
            }
            self.did_write = true;
            true
        }
    }

    /// Ends the current archive: when it yielded a new file, the next new
    /// files go to the next directory.
    pub fn end_archive(&mut self)
        requires
            old(self).wf(),
            old(self).did_write ==> old(self).dir_entry < i32::MAX,
        ensures
            final(self).wf(),
            final(self).seen == old(self).seen,
            final(self).did_write == old(self).did_write,
            final(self).dir_entry == if old(self).did_write {
                old(self).dir_entry + 1
            } else {
                old(self).dir_entry as int
            },
    {
        if self.did_write {
            self.dir_entry = self.dir_entry + 1;
        }
    }
}

/// Whether two byte strings are equal.
fn bytes_equal(a: &Vec<u8>, b: &Vec<u8>) -> (r: bool)
    ensures
        r == (a@ == b@),
{
    if a.len() != b.len() {
        return false;
    }
    let mut i: usize = 0;
    while i < a.len()
        invariant
            i <= a@.len(),
            a@.len() == b@.len(),
            forall|k: int| 0 <= k < i ==> a@[k] == b@[k],
        decreases a@.len() - i,
    {
        if a[i] != b[i] {
            return false;
        }
        i = i + 1;
    }
    assert(a@ =~= b@);
    true
}

} // verus!
