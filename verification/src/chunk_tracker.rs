use vstd::prelude::*;
use crate::lengths::Lengths;

verus! {

/// Download state of one piece. `Verified` is terminal except for an
/// explicit re-check failure, which demotes the piece to `Needed`.
#[derive(Clone, Copy, Debug, PartialEq, Eq, Structural)]
pub enum PieceState {
    /// No block of the piece has been received.
    Needed,
    /// Some but not all blocks have been received.
    InProgress,
    /// Every block has been received; the hash check is outstanding.
    Complete,
    /// Every block has been received and the hash check succeeded.
    Verified,
}

/// A vector of `n` copies of `v`.
fn filled_bools(n: usize, v: bool) -> (r: Vec<bool>)
    ensures
        r@.len() == n,
        forall|i: int| 0 <= i < n ==> r@[i] == v,
{
    let mut r: Vec<bool> = Vec::new();
    let mut i: usize = 0;
    while i < n
        invariant
            0 <= i <= n,
            r@.len() == i,
            forall|j: int| 0 <= j < i ==> r@[j] == v,
        decreases n - i,
    {
        r.push(v);
        i = i + 1;
    }
    r
}

/// The block bitset `s` after a sequence of block writes, applied in
/// order: each write marks one block received and touches nothing else.
pub open spec fn after_writes(s: Seq<bool>, order: Seq<int>) -> Seq<bool>
    decreases order.len(),
{
    if order.len() == 0 {
        s
    } else {
        after_writes(s, order.drop_last()).update(order.last(), true)
    }
}

/// A single write is one step of `after_writes`: recording block `b`
/// leaves the bitset exactly as `mark_block_received` promises.
pub proof fn lemma_after_writes_step(s: Seq<bool>, b: int)
    ensures
        after_writes(s, seq![b]) == s.update(b, true),
{
    assert(seq![b].drop_last() =~= Seq::<int>::empty());
    assert(after_writes(s, Seq::<int>::empty()) == s);
    assert(seq![b].last() == b);
}

/// After any sequence of in-range block writes, a block is received
/// exactly when it was received before or some write named it. In
/// particular no write is ever lost, whatever the interleaving.
pub proof fn lemma_after_writes_bits(s: Seq<bool>, order: Seq<int>, j: int)
    requires
        forall|k: int| 0 <= k < order.len() ==> 0 <= #[trigger] order[k] < s.len(),
        0 <= j < s.len(),
    ensures
        after_writes(s, order).len() == s.len(),
        after_writes(s, order)[j] == (s[j] || order.contains(j)),
    decreases order.len(),
{
    if order.len() > 0 {
        let prefix = order.drop_last();
        assert(forall|k: int| 0 <= k < prefix.len() ==> 0 <= #[trigger] prefix[k] < s.len());
        lemma_after_writes_bits(s, prefix, j);
        if order.contains(j) {
            let k = choose|k: int| 0 <= k < order.len() && order[k] == j;
            if k < order.len() - 1 {
                assert(prefix[k] == j);
                assert(prefix.contains(j));
            }
        } else {
            assert(forall|k: int| 0 <= k < prefix.len() ==> prefix[k] == order[k]);
            if prefix.contains(j) {
                let k = choose|k: int| 0 <= k < prefix.len() && prefix[k] == j;
                assert(order[k] == j);
            }
        }
    }
}

/// Block writes for the blocks of a piece, arriving in any order, never
/// lose a block: once every block index has been written at least once,
/// the bitset is fully received.
pub proof fn lemma_writes_in_any_order_complete(s: Seq<bool>, order: Seq<int>)
    requires
        forall|k: int| 0 <= k < order.len() ==> 0 <= #[trigger] order[k] < s.len(),
        forall|j: int| 0 <= j < s.len() ==> order.contains(j),
    ensures
        after_writes(s, order).len() == s.len(),
        forall|j: int| 0 <= j < s.len() ==> after_writes(s, order)[j],
{
    if s.len() > 0 {
        lemma_after_writes_bits(s, order, 0);
    }
    assert forall|j: int| 0 <= j < s.len() implies after_writes(s, order)[j] by {
        lemma_after_writes_bits(s, order, j);
    }
}

/// The per-piece availability and selection state machine: which pieces
/// are queued for download, which blocks of each piece have been
/// received, and which pieces are complete or verified. All mutation of
/// block state goes through this type.
#[derive(Debug)]
pub struct ChunkTracker {
    /// The piece/block geometry the tracker was built for.
    pub lengths: Lengths,
    /// Download state of each piece.
    pub states: Vec<PieceState>,
    /// Per piece, one received-flag per block; sized at construction,
    /// shorter for the final piece.
    pub blocks: Vec<Vec<bool>>,
    /// Whether each piece is eligible for selection by `next_block`.
    pub queued: Vec<bool>,
}

impl ChunkTracker {
    /// The block bitset of `piece`.
    pub open spec fn piece_blocks(self, piece: int) -> Seq<bool> {
        self.blocks@[piece]@
    }

    /// Every block of `piece` has been received.
    pub open spec fn all_received(self, piece: int) -> bool {
        forall|b: int| 0 <= b < self.piece_blocks(piece).len() ==> self.piece_blocks(piece)[b]
    }

    /// No block of `piece` has been received.
    pub open spec fn none_received(self, piece: int) -> bool {
        forall|b: int| 0 <= b < self.piece_blocks(piece).len() ==> !self.piece_blocks(piece)[b]
    }

    /// `piece` still has a block to fetch.
    pub open spec fn has_missing_block(self, piece: int) -> bool {
        exists|b: int| 0 <= b < self.piece_blocks(piece).len() && !self.piece_blocks(piece)[b]
    }

    /// `piece` is a candidate for selection: queued and not fully received.
    pub open spec fn selectable(self, piece: int) -> bool {
        &&& 0 <= piece < self.states@.len()
        &&& self.queued@[piece]
        &&& self.has_missing_block(piece)
    }

    /// `block` is the lowest not-yet-received block of `piece`.
    pub open spec fn first_missing(self, piece: int, block: int) -> bool {
        &&& 0 <= block < self.piece_blocks(piece).len()
        &&& !self.piece_blocks(piece)[block]
        &&& forall|b: int| 0 <= b < block ==> self.piece_blocks(piece)[b]
    }

    /// The state of each piece agrees with its block bitset.
    pub open spec fn piece_consistent(self, i: int) -> bool {
        &&& self.piece_blocks(i).len() == self.lengths.spec_blocks_per_piece(i)
        &&& self.piece_blocks(i).len() >= 1
        &&& match self.states@[i] {
            PieceState::Needed => self.none_received(i),
            PieceState::InProgress => !self.all_received(i) && !self.none_received(i),
            PieceState::Complete => self.all_received(i),
            PieceState::Verified => self.all_received(i),
        }
        &&& self.states@[i] == PieceState::Verified ==> !self.queued@[i]
    }

    /// Well-formed tracker: one state, bitset and queue flag per piece of
    /// the geometry, each piece's state consistent with its bitset.
    pub open spec fn wf(self) -> bool {
        &&& self.lengths.wf()
        &&& self.states@.len() == self.lengths.spec_piece_count()
        &&& self.blocks@.len() == self.states@.len()
        &&& self.queued@.len() == self.states@.len()
        &&& forall|i: int| 0 <= i < self.states@.len() ==> #[trigger] self.piece_consistent(i)
    }

    /// In a well-formed tracker a fully received piece is `Complete` or
    /// `Verified`: block writes are never lost.
    pub proof fn lemma_all_received_is_complete(self, piece: int)
        requires
            self.wf(),
            0 <= piece < self.states@.len(),
            self.all_received(piece),
        ensures
            self.states@[piece] == PieceState::Complete || self.states@[piece] == PieceState::Verified,
    {
        assert(self.piece_consistent(piece));
        assert(self.piece_blocks(piece)[0]);
    }

    /// Seed a tracker from the startup integrity sweep: pieces already
    /// held become `Verified` with fully set bitsets, every other piece
    /// starts `Needed` with an empty bitset; the queued set is exactly
    /// `needed_pieces`.
    pub fn new(needed_pieces: &Vec<bool>, have_pieces: &Vec<bool>, lengths: Lengths) -> (r: ChunkTracker)
        requires
            lengths.wf(),
            lengths.piece_length <= usize::MAX,
            needed_pieces@.len() == lengths.spec_piece_count(),
            have_pieces@.len() == lengths.spec_piece_count(),
            forall|i: int| 0 <= i < needed_pieces@.len() ==>
                !(#[trigger] needed_pieces@[i] && have_pieces@[i]),
        ensures
            r.wf(),
            r.lengths == lengths,
            r.queued@ == needed_pieces@,
            forall|i: int| 0 <= i < r.states@.len() ==>
                #[trigger] r.states@[i] == if have_pieces@[i] { PieceState::Verified } else { PieceState::Needed },
            forall|i: int| 0 <= i < r.states@.len() ==> (r.all_received(i) <==> have_pieces@[i]),
    {
        let n: usize = needed_pieces.len();
        let mut states: Vec<PieceState> = Vec::new();
        let mut blocks: Vec<Vec<bool>> = Vec::new();
        let mut queued: Vec<bool> = Vec::new();
        let mut i: usize = 0;
        while i < n
            invariant
                lengths.wf(),
                lengths.piece_length <= usize::MAX,
                n == needed_pieces@.len(),
                n == have_pieces@.len(),
                n == lengths.spec_piece_count(),
                forall|k: int| 0 <= k < n ==> !(#[trigger] needed_pieces@[k] && have_pieces@[k]),
                0 <= i <= n,
                states@.len() == i,
                blocks@.len() == i,
                queued@.len() == i,
                forall|k: int| 0 <= k < i ==> queued@[k] == needed_pieces@[k],
                forall|k: int| 0 <= k < i ==>
                    #[trigger] states@[k] == if have_pieces@[k] { PieceState::Verified } else { PieceState::Needed },
                forall|k: int| 0 <= k < i ==> #[trigger] blocks@[k]@.len() == lengths.spec_blocks_per_piece(k),
                forall|k: int| 0 <= k < i ==> blocks@[k]@.len() >= 1,
                forall|k: int, b: int| 0 <= k < i && 0 <= b < blocks@[k]@.len() ==>
                    #[trigger] blocks@[k]@[b] == have_pieces@[k],
            decreases n - i,
        {
            let nb64 = lengths.blocks_per_piece(i as u64);
            let nb: usize = nb64 as usize;
            if have_pieces[i] {
                states.push(PieceState::Verified);
                blocks.push(filled_bools(nb, true));
                queued.push(needed_pieces[i]);
            } else {
                states.push(PieceState::Needed);
                blocks.push(filled_bools(nb, false));
                queued.push(needed_pieces[i]);
            }
            i = i + 1;
        }
        let ghost gb = blocks@;
        let r = ChunkTracker { lengths, states, blocks, queued };
        proof {
            assert(r.queued@ =~= needed_pieces@);
            assert forall|k: int| 0 <= k < r.states@.len() implies #[trigger] r.piece_consistent(k) by {
                assert(r.piece_blocks(k) == gb[k]@);
                if have_pieces@[k] {
                    assert(forall|b: int| 0 <= b < gb[k]@.len() ==> #[trigger] gb[k]@[b]);
                } else {
                    assert(forall|b: int| 0 <= b < gb[k]@.len() ==> !(#[trigger] gb[k]@[b]));
                }
            }
            assert forall|i: int| 0 <= i < r.states@.len() implies (r.all_received(i) <==> have_pieces@[i]) by {
                assert(r.piece_blocks(i) == gb[i]@);
                if have_pieces@[i] {
                    assert(forall|b: int| 0 <= b < gb[i]@.len() ==> #[trigger] gb[i]@[b]);
                } else {
                    assert(!gb[i]@[0]);
                    assert(!r.all_received(i));
                }
            }
        }
        r
    }

    /// The lowest not-yet-received block of `piece`, or `None` when the
    /// piece is fully received.
    pub fn first_missing_block(&self, piece: usize) -> (r: Option<usize>)
        requires
            self.wf(),
            piece < self.states@.len(),
        ensures
            match r {
                Some(b) => self.first_missing(piece as int, b as int),
                None => self.all_received(piece as int),
            },
    {
        let row_len = self.blocks[piece].len();
        let mut b: usize = 0;
        while b < row_len
            invariant
                self.wf(),
                piece < self.blocks@.len(),
                row_len == self.piece_blocks(piece as int).len(),
                0 <= b <= row_len,
                forall|j: int| 0 <= j < b ==> self.piece_blocks(piece as int)[j],
            decreases row_len - b,
        {
            if !self.blocks[piece][b] {
                return Some(b);
            }
            b = b + 1;
        }
        None
    }

    /// Select the next block to fetch. When a preferred piece is given and
    /// still selectable, its lowest missing block is returned; otherwise
    /// selection is sequential: the lowest missing block of the lowest
    /// queued piece that still misses one. Returns `None` exactly when no
    /// queued piece has an unreceived block left.
    pub fn next_block(&self, preferred: Option<usize>) -> (r: Option<(usize, usize)>)
        requires
            self.wf(),
        ensures
            match r {
                Some(pb) => {
                    &&& self.selectable(pb.0 as int)
                    &&& self.first_missing(pb.0 as int, pb.1 as int)
                },
                None => forall|p: int| !self.selectable(p),
            },
            match preferred {
                Some(pp) => self.selectable(pp as int) ==> (r matches Some(pb) && pb.0 == pp),
                None => r matches Some(pb) ==> forall|p: int| 0 <= p < pb.0 ==> !self.selectable(p),
            },
            (exists|p: int| self.selectable(p)) ==> r is Some,
    {
        if let Some(pp) = preferred {
            if pp < self.states.len() && self.queued[pp] {
                match self.first_missing_block(pp) {
                    Some(b) => {
                        return Some((pp, b));
                    },
                    None => {
                        assert(!self.selectable(pp as int));
                    },
                }
            }
        }
        let n = self.states.len();
        let mut p: usize = 0;
        while p < n
            invariant
                self.wf(),
                n == self.states@.len(),
                0 <= p <= n,
                forall|q: int| 0 <= q < p ==> !self.selectable(q),
                preferred matches Some(pp) ==> !self.selectable(pp as int),
            decreases n - p,
        {
            if self.queued[p] {
                if let Some(b) = self.first_missing_block(p) {
                    return Some((p, b));
                }
            }
            p = p + 1;
        }
        None
    }

    /// Record a validated block write: the named block becomes received
    /// and nothing else changes; the piece transitions to `Complete`
    /// exactly when this write fills its bitset, and the return value
    /// tells the caller to run the piece's hash check in that case.
    /// Duplicate writes are tolerated and change nothing.
    pub fn mark_block_received(&mut self, piece: usize, block: usize) -> (completed: bool)
        requires
            old(self).wf(),
            piece < old(self).states@.len(),
            0 <= block < old(self).piece_blocks(piece as int).len(),
        ensures
            final(self).wf(),
            final(self).lengths == old(self).lengths,
            final(self).queued@ == old(self).queued@,
            final(self).states@.len() == old(self).states@.len(),
            final(self).blocks@.len() == old(self).blocks@.len(),
            final(self).piece_blocks(piece as int) == old(self).piece_blocks(piece as int).update(block as int, true),
            forall|j: int| 0 <= j < old(self).blocks@.len() && j != piece ==>
                #[trigger] final(self).piece_blocks(j) == old(self).piece_blocks(j),
            forall|j: int| 0 <= j < old(self).states@.len() && j != piece ==>
                #[trigger] final(self).states@[j] == old(self).states@[j],
            completed == (!old(self).all_received(piece as int) && final(self).all_received(piece as int)),
            completed ==> final(self).states@[piece as int] == PieceState::Complete,
            old(self).states@[piece as int] == PieceState::Verified ==>
                final(self).states@[piece as int] == PieceState::Verified,
    {
        let ghost pre = *self;
        let row = &mut self.blocks[piece];
        row[block] = true;
        proof {
            assert(self.piece_blocks(piece as int) =~= pre.piece_blocks(piece as int).update(block as int, true));
            assert forall|j: int| 0 <= j < pre.blocks@.len() && j != piece implies
                #[trigger] self.piece_blocks(j) == pre.piece_blocks(j) by {}
        }
        let now_complete = match self.first_missing_block_after_write(piece) {
            Some(_) => false,
            None => true,
        };
        let st = self.states[piece];
        let completed: bool;
        match st {
            PieceState::Needed | PieceState::InProgress => {
                if now_complete {
                    self.states[piece] = PieceState::Complete;
                    completed = true;
                } else {
                    self.states[piece] = PieceState::InProgress;
                    completed = false;
                }
            },
            PieceState::Complete | PieceState::Verified => {
                completed = false;
            },
        }
        proof {
            assert(pre.piece_consistent(piece as int));
            assert(self.piece_blocks(piece as int)[block as int]);
            if pre.states@[piece as int] == PieceState::Needed {
                assert(!pre.piece_blocks(piece as int)[0]);
            }
            assert forall|i: int| 0 <= i < self.states@.len() implies #[trigger] self.piece_consistent(i) by {
                assert(pre.piece_consistent(i));
                if i != piece {
                    assert(self.piece_blocks(i) == pre.piece_blocks(i));
                } else {
                    if pre.all_received(i) {
                        assert forall|b: int| 0 <= b < self.piece_blocks(i).len() implies self.piece_blocks(i)[b] by {
                            assert(pre.piece_blocks(i)[b]);
                        }
                    }
                }
            }
        }
        completed
    }

    /// The lowest missing block of `piece`, read under a weaker
    /// precondition while the piece's state is being updated.
    fn first_missing_block_after_write(&self, piece: usize) -> (r: Option<usize>)
        requires
            piece < self.blocks@.len(),
        ensures
            match r {
                Some(b) => 0 <= b < self.piece_blocks(piece as int).len() && !self.piece_blocks(piece as int)[b as int],
                None => forall|b: int| 0 <= b < self.piece_blocks(piece as int).len() ==> self.piece_blocks(piece as int)[b],
            },
    {
        let row_len = self.blocks[piece].len();
        let mut b: usize = 0;
        while b < row_len
            invariant
                piece < self.blocks@.len(),
                row_len == self.piece_blocks(piece as int).len(),
                0 <= b <= row_len,
                forall|j: int| 0 <= j < b ==> self.piece_blocks(piece as int)[j],
            decreases row_len - b,
        {
            if !self.blocks[piece][b] {
                return Some(b);
            }
            b = b + 1;
        }
        None
    }

    /// Record the outcome of a piece's hash check, for a just-completed
    /// piece or for an explicit re-check of a `Verified` one. On success
    /// the piece is `Verified` and out of the queued set. On failure the
    /// piece is fully reset — corruption detected after the fact demotes
    /// even a `Verified` piece: state `Needed`, every block marked not
    /// received, and the piece queued again so `next_block` can hand its
    /// blocks out once more.
    pub fn on_piece_verified(&mut self, piece: usize, success: bool)
        requires
            old(self).wf(),
            piece < old(self).states@.len(),
            old(self).states@[piece as int] == PieceState::Complete
                || old(self).states@[piece as int] == PieceState::Verified,
        ensures
            final(self).wf(),
            final(self).lengths == old(self).lengths,
            final(self).states@.len() == old(self).states@.len(),
            final(self).blocks@.len() == old(self).blocks@.len(),
            final(self).queued@.len() == old(self).queued@.len(),
            forall|j: int| 0 <= j < old(self).states@.len() && j != piece ==>
                #[trigger] final(self).states@[j] == old(self).states@[j],
            forall|j: int| 0 <= j < old(self).blocks@.len() && j != piece ==>
                #[trigger] final(self).piece_blocks(j) == old(self).piece_blocks(j),
            forall|j: int| 0 <= j < old(self).queued@.len() && j != piece ==>
                #[trigger] final(self).queued@[j] == old(self).queued@[j],
            final(self).piece_blocks(piece as int).len() == old(self).piece_blocks(piece as int).len(),
            success ==> {
                &&& final(self).states@[piece as int] == PieceState::Verified
                &&& final(self).piece_blocks(piece as int) == old(self).piece_blocks(piece as int)
                &&& !final(self).queued@[piece as int]
            },
            !success ==> {
                &&& final(self).states@[piece as int] == PieceState::Needed
                &&& final(self).none_received(piece as int)
                &&& final(self).queued@[piece as int]
                &&& final(self).selectable(piece as int)
            },
    {
        let ghost pre = *self;
        if success {
            self.states[piece] = PieceState::Verified;
            self.queued[piece] = false;
        } else {
            let nb = self.blocks[piece].len();
            self.states[piece] = PieceState::Needed;
            self.queued[piece] = true;
            let cleared = filled_bools(nb, false);
            self.blocks[piece] = cleared;
        }
        proof {
            assert(pre.piece_consistent(piece as int));
            assert forall|i: int| 0 <= i < self.states@.len() implies #[trigger] self.piece_consistent(i) by {
                assert(pre.piece_consistent(i));
                if i != piece {
                    assert(self.piece_blocks(i) == pre.piece_blocks(i));
                }
            }
            if !success {
                assert(self.piece_blocks(piece as int).len() >= 1);
                assert(!self.piece_blocks(piece as int)[0]);
            }
        }
    }

    /// The download state of `piece`.
    pub fn piece_state(&self, piece: usize) -> (r: PieceState)
        requires
            self.wf(),
            piece < self.states@.len(),
        ensures
            r == self.states@[piece as int],
    {
        self.states[piece]
    }

    /// Whether `block` of `piece` has been received.
    pub fn is_block_received(&self, piece: usize, block: usize) -> (r: bool)
        requires
            self.wf(),
            piece < self.states@.len(),
            block < self.piece_blocks(piece as int).len(),
        ensures
            r == self.piece_blocks(piece as int)[block as int],
    {
        self.blocks[piece][block]
    }

    /// The number of pieces the tracker manages.
    pub fn piece_count(&self) -> (r: usize)
        requires
            self.wf(),
        ensures
            r == self.states@.len(),
    {
        self.states.len()
    }
}

} // verus!
