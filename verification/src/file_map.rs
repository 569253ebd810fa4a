use vstd::prelude::*;
use crate::EngineError;

verus! {

/// One fragment of a resolved global byte range: `len` bytes starting at
/// byte `offset` of the file at position `file_id` in the descriptor's
/// file order. A fragment never crosses a file boundary.
#[derive(Clone, Copy, Debug, PartialEq, Eq, Structural)]
pub struct FileSlice {
    /// Position of the file in the descriptor's concatenation order.
    pub file_id: usize,
    /// Byte offset inside that file.
    pub offset: u64,
    /// Byte count of the fragment; always positive.
    pub len: u64,
}

/// Sum of the byte lengths of the first `i` files.
pub open spec fn prefix_sum(files: Seq<u64>, i: int) -> int
    decreases i,
{
    if i <= 0 {
        0
    } else {
        prefix_sum(files, i - 1) + files[i - 1]
    }
}

/// Sum of the byte lengths of all files: the length of their concatenation.
pub open spec fn total_of(files: Seq<u64>) -> int {
    prefix_sum(files, files.len() as int)
}

/// The prefix sums grow with the index.
pub proof fn lemma_prefix_sum_monotone(files: Seq<u64>, i: int, j: int)
    requires
        0 <= i <= j <= files.len(),
    ensures
        prefix_sum(files, i) <= prefix_sum(files, j),
    decreases j - i,
{
    if i < j {
        lemma_prefix_sum_monotone(files, i, j - 1);
    }
}

/// Sum of the byte lengths of the first `k` fragments.
pub open spec fn frags_len(frags: Seq<FileSlice>, k: int) -> int
    decreases k,
{
    if k <= 0 {
        0
    } else {
        frags_len(frags, k - 1) + frags[k - 1].len
    }
}

/// Appending a fragment leaves the sums over existing prefixes unchanged.
pub proof fn lemma_frags_len_push(frags: Seq<FileSlice>, f: FileSlice, k: int)
    requires
        0 <= k <= frags.len(),
    ensures
        frags_len(frags.push(f), k) == frags_len(frags, k),
    decreases k,
{
    if k > 0 {
        lemma_frags_len_push(frags, f, k - 1);
    }
}

/// Fragment `k` of a resolution of the range starting at `offset` is
/// in bounds of its file, non-empty, and starts exactly where the bytes
/// covered by the previous fragments end.
pub open spec fn frag_ok(files: Seq<u64>, offset: int, frags: Seq<FileSlice>, k: int) -> bool {
    let f = frags[k];
    &&& 0 <= f.file_id < files.len()
    &&& f.len > 0
    &&& f.offset + f.len <= files[f.file_id as int]
    &&& prefix_sum(files, f.file_id as int) + f.offset == offset + frags_len(frags, k)
}

/// A correct resolution of the global range `[offset, offset + length)`:
/// the fragments cover the range in order without gaps or overlaps, their
/// lengths sum exactly to `length`, and file positions strictly increase.
pub open spec fn resolution_ok(files: Seq<u64>, offset: int, length: int, frags: Seq<FileSlice>) -> bool {
    &&& forall|k: int| 0 <= k < frags.len() ==> #[trigger] frag_ok(files, offset, frags, k)
    &&& frags_len(frags, frags.len() as int) == length
    &&& forall|k: int| 0 <= k < frags.len() - 1 ==> #[trigger] frags[k].file_id < frags[k + 1].file_id
}

/// Whether file `f` of the layout shares at least one byte with the
/// global byte range `[offset, offset + len)`.
pub open spec fn range_overlaps_file(files: Seq<u64>, f: int, offset: int, len: int) -> bool {
    &&& prefix_sum(files, f) < offset + len
    &&& offset < prefix_sum(files, f) + files[f]
}

/// The ordered file layout of a download: the byte length of each file in
/// concatenation order. Resolves global byte ranges into per-file
/// fragments.
#[derive(Clone, Debug)]
pub struct FileMap {
    /// Byte length of each file, in the descriptor's order.
    pub file_lengths: Vec<u64>,
}

impl FileMap {
    /// Well-formed layout: the concatenated length fits the machine's
    /// byte counters.
    pub open spec fn wf(self) -> bool {
        total_of(self.file_lengths@) <= u64::MAX
    }

    /// The concatenated length of all files.
    pub open spec fn spec_total(self) -> int {
        total_of(self.file_lengths@)
    }

    /// Build a layout from the descriptor's file lengths. Fails with
    /// `InvalidGeometry` exactly when the summed lengths overflow a byte
    /// counter.
    pub fn new(file_lengths: Vec<u64>) -> (r: Result<FileMap, EngineError>)
        ensures
            match r {
                Ok(m) => {
                    &&& m.file_lengths@ == file_lengths@
                    &&& m.wf()
                },
                Err(e) => {
                    &&& e == EngineError::InvalidGeometry
                    &&& total_of(file_lengths@) > u64::MAX
                },
            },
    {
        let mut acc: u64 = 0;
        let mut i: usize = 0;
        while i < file_lengths.len()
            invariant
                0 <= i <= file_lengths.len(),
                acc as int == prefix_sum(file_lengths@, i as int),
            decreases file_lengths.len() - i,
        {
            let l = file_lengths[i];
            if acc > u64::MAX - l {
                proof {
                    lemma_prefix_sum_monotone(file_lengths@, i as int + 1, file_lengths@.len() as int);
                }
                return Err(EngineError::InvalidGeometry);
            }
            acc = acc + l;
            i = i + 1;
        }
        Ok(FileMap { file_lengths })
    }

    /// The total length of the concatenation, as a run-time value.
    pub fn total_length(&self) -> (r: u64)
        requires
            self.wf(),
        ensures
            r as int == self.spec_total(),
    {
        let mut acc: u64 = 0;
        let mut i: usize = 0;
        while i < self.file_lengths.len()
            invariant
                0 <= i <= self.file_lengths.len(),
                acc as int == prefix_sum(self.file_lengths@, i as int),
                self.wf(),
            decreases self.file_lengths.len() - i,
        {
            proof {
                lemma_prefix_sum_monotone(self.file_lengths@, i as int + 1, self.file_lengths@.len() as int);
            }
            acc = acc + self.file_lengths[i];
            i = i + 1;
        }
        acc
    }

    /// Whether every file that shares a byte with the global range
    /// `[offset, offset + len)` is marked in `included`. A sweep
    /// restricted to a file subset treats a piece whose range touches an
    /// excluded file as needed, whatever is on disk.
    pub fn range_within_files(&self, offset: u64, len: u64, included: &Vec<bool>) -> (r: bool)
        requires
            self.wf(),
            included@.len() == self.file_lengths@.len(),
        ensures
            r == forall|f: int| 0 <= f < self.file_lengths@.len()
                && #[trigger] range_overlaps_file(self.file_lengths@, f, offset as int, len as int)
                ==> included@[f],
    {
        let ghost fseq = self.file_lengths@;
        let nfiles: usize = self.file_lengths.len();
        let mut f: usize = 0;
        let mut file_start: u64 = 0;
        while f < nfiles
            invariant
                self.wf(),
                fseq == self.file_lengths@,
                nfiles == fseq.len(),
                included@.len() == fseq.len(),
                0 <= f <= nfiles,
                file_start as int == prefix_sum(fseq, f as int),
                forall|g: int| 0 <= g < f
                    && #[trigger] range_overlaps_file(fseq, g, offset as int, len as int)
                    ==> included@[g],
            decreases nfiles - f,
        {
            proof {
                lemma_prefix_sum_monotone(fseq, f as int + 1, fseq.len() as int);
            }
            let flen = self.file_lengths[f];
            let overlaps = (file_start as u128) < (offset as u128) + (len as u128)
                && offset < file_start + flen;
            if overlaps && !included[f] {
                proof {
                    assert(range_overlaps_file(fseq, f as int, offset as int, len as int));
                }
                return false;
            }
            file_start = file_start + flen;
            f = f + 1;
        }
        true
    }

    /// Resolve the global byte range `[offset, offset + length)` into
    /// per-file fragments. Fails with `OutOfRange` exactly when the range
    /// does not fit in the concatenated length; otherwise the fragments
    /// partition the range in order, never cross a file boundary, and sum
    /// exactly to `length`.
    pub fn resolve(&self, offset: u64, length: u64) -> (r: Result<Vec<FileSlice>, EngineError>)
        requires
            self.wf(),
        ensures
            match r {
                Ok(frags) => {
                    &&& offset + length <= self.spec_total()
                    &&& resolution_ok(self.file_lengths@, offset as int, length as int, frags@)
                },
                Err(e) => {
                    &&& e == EngineError::OutOfRange
                    &&& offset + length > self.spec_total()
                },
            },
    {
        let ghost fseq = self.file_lengths@;
        let total = self.total_length();
        if offset > total || length > total - offset {
            return Err(EngineError::OutOfRange);
        }
        let nfiles: usize = self.file_lengths.len();
        proof {
            assert(fseq.len() == nfiles);
        }
        let mut frags: Vec<FileSlice> = Vec::new();
        let mut file_id: usize = 0;
        let mut file_start: u64 = 0;
        let mut pos: u64 = offset;
        let mut remaining: u64 = length;
        while remaining > 0
            invariant
                self.wf(),
                fseq == self.file_lengths@,
                0 <= file_id <= fseq.len(),
                fseq.len() <= usize::MAX,
                file_start as int == prefix_sum(fseq, file_id as int),
                file_start <= pos,
                pos as int == offset + length - remaining,
                pos + remaining <= self.spec_total(),
                frags_len(frags@, frags@.len() as int) == length - remaining,
                forall|k: int| 0 <= k < frags@.len() ==> #[trigger] frag_ok(fseq, offset as int, frags@, k),
                forall|k: int| 0 <= k < frags@.len() - 1 ==> #[trigger] frags@[k].file_id < frags@[k + 1].file_id,
                frags@.len() > 0 && remaining > 0 ==> frags@[frags@.len() - 1].file_id < file_id,
            decreases fseq.len() - file_id, remaining,
        {
            proof {
                assert(prefix_sum(fseq, fseq.len() as int) == self.spec_total());
                if file_id == fseq.len() {
                    assert(file_start as int == self.spec_total());
                    assert(pos < self.spec_total());
                    assert(false);
                }
                assert(file_id < fseq.len());
                lemma_prefix_sum_monotone(fseq, file_id as int + 1, fseq.len() as int);
                assert(file_start + fseq[file_id as int] <= self.spec_total());
            }
            let flen = self.file_lengths[file_id];
            assert(file_start + flen <= u64::MAX);
            if file_start + flen <= pos {
                file_start = file_start + flen;
                file_id = file_id + 1;
            } else {
                let local = pos - file_start;
                let avail = flen - local;
                let take = if avail < remaining { avail } else { remaining };
                let f = FileSlice { file_id, offset: local, len: take };
                proof {
                    let old_frags = frags@;
                    let new_frags = frags@.push(f);
                    lemma_frags_len_push(old_frags, f, old_frags.len() as int);
                    assert(frags_len(new_frags, new_frags.len() as int)
                        == frags_len(old_frags, old_frags.len() as int) + take);
                    assert forall|k: int| 0 <= k < new_frags.len() implies
                        #[trigger] frag_ok(fseq, offset as int, new_frags, k)
                    by {
                        if k < old_frags.len() {
                            lemma_frags_len_push(old_frags, f, k);
                            assert(frag_ok(fseq, offset as int, old_frags, k));
                            assert(new_frags[k] == old_frags[k]);
                        } else {
                            lemma_frags_len_push(old_frags, f, k);
                        }
                    }
                }
                frags.push(f);
                pos = pos + take;
                remaining = remaining - take;
                if take == avail && remaining > 0 {
                    file_start = file_start + flen;
                    file_id = file_id + 1;
                }
            }
        }
        Ok(frags)
    }
}

} // verus!
