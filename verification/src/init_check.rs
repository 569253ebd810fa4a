use vstd::prelude::*;
use crate::lengths::Lengths;

verus! {

/// Sum of the byte lengths of the first `i` pieces.
pub open spec fn pieces_bytes(l: Lengths, i: int) -> int
    decreases i,
{
    if i <= 0 {
        0
    } else {
        pieces_bytes(l, i - 1) + l.spec_piece_len(i - 1)
    }
}

/// Bytes of the pieces among the first `i` that the sweep found held.
pub open spec fn have_sum(l: Lengths, have: Seq<bool>, i: int) -> int
    decreases i,
{
    if i <= 0 {
        0
    } else {
        have_sum(l, have, i - 1) + if have[i - 1] { l.spec_piece_len(i - 1) } else { 0 }
    }
}

/// Bytes of the pieces among the first `i` that the sweep found missing.
pub open spec fn needed_sum(l: Lengths, have: Seq<bool>, i: int) -> int
    decreases i,
{
    if i <= 0 {
        0
    } else {
        needed_sum(l, have, i - 1) + if have[i - 1] { 0 } else { l.spec_piece_len(i - 1) }
    }
}

/// Held and missing bytes together account for every swept byte.
pub proof fn lemma_sums_split(l: Lengths, have: Seq<bool>, i: int)
    requires
        0 <= i,
    ensures
        have_sum(l, have, i) + needed_sum(l, have, i) == pieces_bytes(l, i),
    decreases i,
{
    if i > 0 {
        lemma_sums_split(l, have, i - 1);
    }
}

/// When every swept piece was held, no byte is reported missing.
pub proof fn lemma_needed_zero_when_all_have(l: Lengths, have: Seq<bool>, i: int)
    requires
        0 <= i <= have.len(),
        forall|k: int| 0 <= k < i ==> have[k],
    ensures
        needed_sum(l, have, i) == 0,
    decreases i,
{
    if i > 0 {
        lemma_needed_zero_when_all_have(l, have, i - 1);
    }
}

/// Neither partial sum is ever negative over valid pieces.
pub proof fn lemma_sums_nonneg(l: Lengths, have: Seq<bool>, i: int)
    requires
        l.wf(),
        0 <= i <= l.spec_piece_count(),
    ensures
        have_sum(l, have, i) >= 0,
        needed_sum(l, have, i) >= 0,
    decreases i,
{
    if i > 0 {
        lemma_sums_nonneg(l, have, i - 1);
        l.lemma_piece_in_range(i - 1);
    }
}

/// The first `i` pieces together hold exactly the bytes up to piece `i`'s
/// start, and all pieces together hold the whole total.
pub proof fn lemma_pieces_bytes_eq_offset(l: Lengths, i: int)
    requires
        l.wf(),
        0 <= i <= l.spec_piece_count(),
    ensures
        i < l.spec_piece_count() ==> pieces_bytes(l, i) == l.spec_piece_offset(i),
        i == l.spec_piece_count() ==> pieces_bytes(l, i) == l.total_length,
        pieces_bytes(l, i) <= l.total_length,
    decreases i,
{
    l.lemma_pieces_partition();
    if i > 0 {
        lemma_pieces_bytes_eq_offset(l, i - 1);
        l.lemma_piece_in_range(i - 1);
    }
    if i < l.spec_piece_count() {
        l.lemma_piece_in_range(i);
    }
}

/// The running result of the startup integrity sweep: for each piece, in
/// index order, whether its on-disk bytes hashed to the descriptor's
/// expected digest; and the held and missing byte totals. Reading and
/// hashing the bytes is the caller's part; this type owns the
/// bookkeeping.
#[derive(Debug)]
pub struct InitialCheck {
    /// The geometry being swept.
    pub lengths: Lengths,
    /// Pieces found held (hash matched), one flag per swept piece.
    pub have_pieces: Vec<bool>,
    /// Pieces found missing; always the complement of `have_pieces`.
    pub needed_pieces: Vec<bool>,
    /// Bytes of the pieces found held.
    pub have_bytes: u64,
    /// Bytes of the pieces found missing.
    pub needed_bytes: u64,
}

impl InitialCheck {
    /// Number of pieces swept so far.
    pub open spec fn processed(self) -> int {
        self.have_pieces@.len() as int
    }

    /// Well-formed sweep state: flags complement each other and the byte
    /// totals match the flags.
    pub open spec fn wf(self) -> bool {
        &&& self.lengths.wf()
        &&& self.lengths.piece_length <= usize::MAX
        &&& self.needed_pieces@.len() == self.have_pieces@.len()
        &&& self.processed() <= self.lengths.spec_piece_count()
        &&& forall|k: int| 0 <= k < self.have_pieces@.len() ==>
            #[trigger] self.needed_pieces@[k] == !self.have_pieces@[k]
        &&& self.have_bytes == have_sum(self.lengths, self.have_pieces@, self.processed())
        &&& self.needed_bytes == needed_sum(self.lengths, self.have_pieces@, self.processed())
    }

    /// Every piece has been swept.
    pub open spec fn finished(self) -> bool {
        self.processed() == self.lengths.spec_piece_count()
    }

    /// Start a sweep over the given geometry.
    pub fn new(lengths: Lengths) -> (r: InitialCheck)
        requires
            lengths.wf(),
            lengths.piece_length <= usize::MAX,
        ensures
            r.wf(),
            r.lengths == lengths,
            r.processed() == 0,
            r.have_bytes == 0,
            r.needed_bytes == 0,
    {
        InitialCheck {
            lengths,
            have_pieces: Vec::new(),
            needed_pieces: Vec::new(),
            have_bytes: 0,
            needed_bytes: 0,
        }
    }

    /// Record the next piece, in index order: `hash_ok` says whether its
    /// bytes hashed to the expected digest (a piece overlapping an
    /// excluded, short or missing file is recorded as a mismatch). The
    /// piece's bytes are added to the held or to the missing total.
    pub fn record_piece(&mut self, hash_ok: bool)
        requires
            old(self).wf(),
            old(self).processed() < old(self).lengths.spec_piece_count(),
        ensures
            final(self).wf(),
            final(self).lengths == old(self).lengths,
            final(self).processed() == old(self).processed() + 1,
            final(self).have_pieces@ == old(self).have_pieces@.push(hash_ok),
            final(self).needed_pieces@ == old(self).needed_pieces@.push(!hash_ok),
            hash_ok ==> {
                &&& final(self).have_bytes ==
                    old(self).have_bytes + old(self).lengths.spec_piece_len(old(self).processed())
                &&& final(self).needed_bytes == old(self).needed_bytes
            },
            !hash_ok ==> {
                &&& final(self).have_bytes == old(self).have_bytes
                &&& final(self).needed_bytes ==
                    old(self).needed_bytes + old(self).lengths.spec_piece_len(old(self).processed())
            },
    {
        let ghost pre = *self;
        let ghost i = self.processed();
        let piece = self.have_pieces.len() as u64;
        proof {
            self.lengths.lemma_piece_in_range(i);
            lemma_sums_split(pre.lengths, pre.have_pieces@, i);
            lemma_sums_nonneg(pre.lengths, pre.have_pieces@, i);
            lemma_pieces_bytes_eq_offset(pre.lengths, i + 1);
        }
        let len = self.lengths.piece_len(piece);
        assert(pieces_bytes(pre.lengths, i + 1) == pieces_bytes(pre.lengths, i) + pre.lengths.spec_piece_len(i));
        assert(pre.have_bytes + len <= pre.lengths.total_length);
        assert(pre.needed_bytes + len <= pre.lengths.total_length);
        if hash_ok {
            self.have_bytes = self.have_bytes + len;
        } else {
            self.needed_bytes = self.needed_bytes + len;
        }
        self.have_pieces.push(hash_ok);
        self.needed_pieces.push(!hash_ok);
        proof {
            let post = *self;
            assert(post.have_pieces@.drop_last() =~= pre.have_pieces@);
            assert(have_sum(post.lengths, post.have_pieces@, i + 1)
                == have_sum(post.lengths, post.have_pieces@, i)
                    + if hash_ok { post.lengths.spec_piece_len(i) } else { 0 });
            lemma_sums_agree(post.lengths, pre.have_pieces@, post.have_pieces@, i);
        }
    }

    /// Whether the sweep has covered every piece.
    pub fn is_finished(&self) -> (r: bool)
        requires
            self.wf(),
        ensures
            r == self.finished(),
    {
        let count = self.lengths.piece_count();
        self.have_pieces.len() as u64 == count
    }

    /// A sweep that found every piece's hash correct reports no bytes
    /// needed and the whole total already held: re-running the sweep over
    /// a fully verified store is idempotent.
    pub proof fn lemma_full_sweep_reports_nothing_needed(self)
        requires
            self.wf(),
            self.finished(),
            forall|k: int| 0 <= k < self.have_pieces@.len() ==> self.have_pieces@[k],
        ensures
            self.needed_bytes == 0,
            self.have_bytes == self.lengths.total_length,
    {
        let count = self.lengths.spec_piece_count();
        lemma_needed_zero_when_all_have(self.lengths, self.have_pieces@, count);
        lemma_sums_split(self.lengths, self.have_pieces@, count);
        lemma_pieces_bytes_eq_offset(self.lengths, count);
    }
}

/// Two flag sequences that agree on the first `i` entries give the same
/// partial sums up to `i`.
pub proof fn lemma_sums_agree(l: Lengths, a: Seq<bool>, b: Seq<bool>, i: int)
    requires
        0 <= i <= a.len(),
        i <= b.len(),
        forall|k: int| 0 <= k < i ==> a[k] == b[k],
    ensures
        have_sum(l, a, i) == have_sum(l, b, i),
        needed_sum(l, a, i) == needed_sum(l, b, i),
    decreases i,
{
    if i > 0 {
        lemma_sums_agree(l, a, b, i - 1);
    }
}

} // verus!
