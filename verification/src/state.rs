use vstd::prelude::*;
use crate::EngineError;
use crate::chunk_tracker::ChunkTracker;
use crate::chunk_tracker::PieceState;
use crate::file_map::FileMap;
use crate::hashing::piece_hash_matches;
use crate::hashing::sha1_of;
use crate::init_check::InitialCheck;
use crate::lengths::Lengths;

verus! {

/// Derive the piece/block geometry from a descriptor's file layout and
/// piece length: the total length is the files' summed length. Fails
/// with `InvalidGeometry` exactly when the geometry would be unusable.
pub fn make_lengths(file_map: &FileMap, piece_length: u64) -> (r: Result<Lengths, EngineError>)
    requires
        file_map.wf(),
    ensures
        match r {
            Ok(l) => {
                &&& l.wf()
                &&& l.total_length == file_map.spec_total()
                &&& l.piece_length == piece_length
                &&& l.block_length == crate::lengths::effective_block_length(piece_length, None)
                &&& crate::lengths::valid_geometry(l.total_length, piece_length, None)
            },
            Err(e) => {
                &&& e == EngineError::InvalidGeometry
                &&& !crate::lengths::valid_geometry(file_map.spec_total() as u64, piece_length, None)
            },
        },
{
    let total = file_map.total_length();
    Lengths::new(total, piece_length, None)
}

/// A peer's socket address: a v4 address as one 32-bit value in network
/// order, and a port.
#[derive(Clone, Copy, Debug, PartialEq, Eq, Structural)]
pub struct PeerAddr {
    /// The four address octets, most significant first.
    pub ip: u32,
    /// The TCP port.
    pub port: u16,
}

/// The deduplicated set of peers harvested from trackers. Append-only:
/// the engine discovers peers and never removes one; liveness is the
/// peer layer's concern.
#[derive(Debug)]
pub struct PeerSet {
    /// The peers, each held exactly once, in discovery order.
    pub peers: Vec<PeerAddr>,
}

impl PeerSet {
    /// No peer is held twice.
    pub open spec fn wf(self) -> bool {
        forall|i: int, j: int| 0 <= i < j < self.peers@.len() ==> self.peers@[i] != self.peers@[j]
    }

    /// An empty peer set.
    pub fn new() -> (r: PeerSet)
        ensures
            r.wf(),
            r.peers@.len() == 0,
    {
        PeerSet { peers: Vec::new() }
    }

    /// Whether `addr` has been seen already.
    pub fn contains(&self, addr: PeerAddr) -> (r: bool)
        ensures
            r == self.peers@.contains(addr),
    {
        let n = self.peers.len();
        let mut i: usize = 0;
        while i < n
            invariant
                n == self.peers@.len(),
                0 <= i <= n,
                forall|j: int| 0 <= j < i ==> self.peers@[j] != addr,
            decreases n - i,
        {
            if self.peers[i] == addr {
                return true;
            }
            i = i + 1;
        }
        false
    }

    /// Add `addr` unless it was seen before; reports whether it was new.
    pub fn add_if_not_seen(&mut self, addr: PeerAddr) -> (added: bool)
        requires
            old(self).wf(),
        ensures
            final(self).wf(),
            added == !old(self).peers@.contains(addr),
            added ==> final(self).peers@ == old(self).peers@.push(addr),
            !added ==> final(self).peers@ == old(self).peers@,
            final(self).peers@.contains(addr),
    {
        if self.contains(addr) {
            false
        } else {
            self.peers.push(addr);
            proof {
                assert(self.peers@.last() == addr);
            }
            true
        }
    }

    /// How many distinct peers have been discovered.
    pub fn len(&self) -> (r: usize)
        ensures
            r == self.peers@.len(),
    {
        self.peers.len()
    }
}

/// The aggregate byte counters of a download. `fetched` counts every
/// byte written, duplicates and waste included; `downloaded_and_checked`
/// counts only bytes of pieces that passed verification; remaining work
/// derives from the latter, clamped so duplicate writes can never push
/// it out of range.
#[derive(Clone, Copy, Debug, PartialEq, Eq, Structural)]
pub struct AggregateCounters {
    /// Bytes served to other peers.
    pub uploaded: u64,
    /// Raw bytes written to disk, duplicates included.
    pub fetched: u64,
    /// Bytes of pieces that passed the hash check.
    pub downloaded_and_checked: u64,
    /// Bytes found missing by the startup sweep; fixed thereafter.
    pub needed_initially: u64,
}

/// The download orchestrator's shared state: the geometry, the file
/// layout, the piece/block tracker, the expected piece digests, the
/// aggregate counters and the discovered peers. The peer layer and the
/// tracker loop mutate it only through the methods below.
#[derive(Debug)]
pub struct TorrentState {
    /// The piece/block geometry.
    pub lengths: Lengths,
    /// The on-disk file layout.
    pub file_map: FileMap,
    /// Block availability and piece verification state.
    pub chunks: ChunkTracker,
    /// Aggregate byte counters.
    pub counters: AggregateCounters,
    /// Discovered peers, deduplicated.
    pub peers: PeerSet,
    /// The descriptor's 20-byte info hash.
    pub info_hash: Vec<u8>,
    /// This client's 20-byte peer id.
    pub peer_id: Vec<u8>,
    /// The descriptor's expected 20-byte digest of each piece.
    pub piece_hashes: Vec<Vec<u8>>,
}

impl TorrentState {
    /// Well-formed state: the tracker matches the geometry, the file
    /// layout concatenates to the total length, identifiers are 20
    /// bytes, and there is one expected digest per piece.
    pub open spec fn wf(self) -> bool {
        &&& self.lengths.wf()
        &&& self.chunks.wf()
        &&& self.chunks.lengths == self.lengths
        &&& self.file_map.wf()
        &&& self.file_map.spec_total() == self.lengths.total_length
        &&& self.peers.wf()
        &&& self.info_hash@.len() == 20
        &&& self.peer_id@.len() == 20
        &&& self.piece_hashes@.len() == self.lengths.spec_piece_count()
        &&& forall|i: int| 0 <= i < self.piece_hashes@.len() ==> #[trigger] self.piece_hashes@[i]@.len() == 20
    }

    /// Assemble the state after the startup sequence: the sweep seeds the
    /// tracker's held and needed sets, and the bytes still missing become
    /// the fixed `needed_initially`.
    pub fn new(
        lengths: Lengths,
        file_map: FileMap,
        check: &InitialCheck,
        info_hash: Vec<u8>,
        peer_id: Vec<u8>,
        piece_hashes: Vec<Vec<u8>>,
    ) -> (r: TorrentState)
        requires
            lengths.wf(),
            check.wf(),
            check.finished(),
            check.lengths == lengths,
            file_map.wf(),
            file_map.spec_total() == lengths.total_length,
            info_hash@.len() == 20,
            peer_id@.len() == 20,
            piece_hashes@.len() == lengths.spec_piece_count(),
            forall|i: int| 0 <= i < piece_hashes@.len() ==> #[trigger] piece_hashes@[i]@.len() == 20,
        ensures
            r.wf(),
            r.lengths == lengths,
            r.counters.uploaded == 0,
            r.counters.fetched == 0,
            r.counters.downloaded_and_checked == 0,
            r.counters.needed_initially == check.needed_bytes,
            r.peers.peers@.len() == 0,
            forall|i: int| 0 <= i < r.chunks.states@.len() ==>
                #[trigger] r.chunks.states@[i] == if check.have_pieces@[i] { PieceState::Verified } else { PieceState::Needed },
            r.chunks.queued@ == check.needed_pieces@,
    {
        let chunks = ChunkTracker::new(&check.needed_pieces, &check.have_pieces, lengths);
        TorrentState {
            lengths,
            file_map,
            chunks,
            counters: AggregateCounters {
                uploaded: 0,
                fetched: 0,
                downloaded_and_checked: 0,
                needed_initially: check.needed_bytes,
            },
            peers: PeerSet::new(),
            info_hash,
            peer_id,
            piece_hashes,
        }
    }

    /// Record a peer discovered by a tracker; reports whether it was new.
    pub fn add_peer_if_not_seen(&mut self, addr: PeerAddr) -> (added: bool)
        requires
            old(self).wf(),
        ensures
            final(self).wf(),
            added == !old(self).peers.peers@.contains(addr),
            added ==> final(self).peers.peers@ == old(self).peers.peers@.push(addr),
            !added ==> final(self).peers.peers@ == old(self).peers.peers@,
            final(self).chunks == old(self).chunks,
            final(self).counters == old(self).counters,
    {
        self.peers.add_if_not_seen(addr)
    }

    /// Bytes served to other peers so far.
    pub fn get_uploaded_bytes(&self) -> (r: u64)
        ensures
            r == self.counters.uploaded,
    {
        self.counters.uploaded
    }

    /// Raw bytes fetched so far, duplicates and waste included.
    pub fn get_downloaded_bytes(&self) -> (r: u64)
        ensures
            r == self.counters.fetched,
    {
        self.counters.fetched
    }

    /// Bytes still to download: the initially needed bytes less the bytes
    /// already verified, floored at zero. Never negative and never above
    /// `needed_initially`, however far duplicate writes inflate the raw
    /// fetched counter.
    pub fn get_left_to_download_bytes(&self) -> (r: u64)
        ensures
            r == if self.counters.downloaded_and_checked <= self.counters.needed_initially {
                self.counters.needed_initially - self.counters.downloaded_and_checked
            } else {
                0
            },
            r <= self.counters.needed_initially,
    {
        self.counters.needed_initially.saturating_sub(self.counters.downloaded_and_checked)
    }

    /// Record bytes served to a peer.
    pub fn add_uploaded(&mut self, bytes: u64)
        requires
            old(self).wf(),
        ensures
            final(self).wf(),
            final(self).counters.uploaded == old(self).counters.uploaded.saturating_add(bytes),
            final(self).counters.fetched == old(self).counters.fetched,
            final(self).counters.downloaded_and_checked == old(self).counters.downloaded_and_checked,
            final(self).counters.needed_initially == old(self).counters.needed_initially,
            final(self).chunks == old(self).chunks,
            final(self).peers.peers@ == old(self).peers.peers@,
    {
        self.counters.uploaded = self.counters.uploaded.saturating_add(bytes);
    }

    /// Record a validated block write of `bytes_len` bytes: the block
    /// becomes received, the raw fetched counter grows by `bytes_len`
    /// unconditionally (a duplicate write is tolerated and still
    /// counted), and the return value tells the caller to hash-check the
    /// piece, exactly when this write filled the piece's bitset.
    pub fn on_block_written(&mut self, piece: usize, block: usize, bytes_len: u64) -> (completed: bool)
        requires
            old(self).wf(),
            piece < old(self).chunks.states@.len(),
            block < old(self).chunks.piece_blocks(piece as int).len(),
        ensures
            final(self).wf(),
            final(self).lengths == old(self).lengths,
            final(self).counters.fetched == old(self).counters.fetched.saturating_add(bytes_len),
            final(self).counters.uploaded == old(self).counters.uploaded,
            final(self).counters.downloaded_and_checked == old(self).counters.downloaded_and_checked,
            final(self).counters.needed_initially == old(self).counters.needed_initially,
            final(self).peers.peers@ == old(self).peers.peers@,
            final(self).chunks.piece_blocks(piece as int)
                == old(self).chunks.piece_blocks(piece as int).update(block as int, true),
            forall|j: int| 0 <= j < old(self).chunks.blocks@.len() && j != piece ==>
                #[trigger] final(self).chunks.piece_blocks(j) == old(self).chunks.piece_blocks(j),
            forall|j: int| 0 <= j < old(self).chunks.states@.len() && j != piece ==>
                #[trigger] final(self).chunks.states@[j] == old(self).chunks.states@[j],
            final(self).chunks.queued@ == old(self).chunks.queued@,
            completed == (!old(self).chunks.all_received(piece as int)
                && final(self).chunks.all_received(piece as int)),
            completed ==> final(self).chunks.states@[piece as int] == PieceState::Complete,
    {
        self.counters.fetched = self.counters.fetched.saturating_add(bytes_len);
        self.chunks.mark_block_received(piece, block)
    }

    /// Record a piece's hash-check outcome, for a just-completed piece or
    /// for an explicit re-check of a `Verified` one. Success moves the
    /// piece to `Verified` and credits its bytes to the checked counter
    /// once, on the first verification; failure fully resets the piece
    /// (state `Needed`, no block received, queued again) and deliberately
    /// leaves the raw fetched counter alone: those bytes were
    /// transferred, just wasted.
    pub fn on_piece_verified(&mut self, piece: usize, success: bool)
        requires
            old(self).wf(),
            piece < old(self).chunks.states@.len(),
            old(self).chunks.states@[piece as int] == PieceState::Complete
                || old(self).chunks.states@[piece as int] == PieceState::Verified,
        ensures
            final(self).wf(),
            final(self).lengths == old(self).lengths,
            final(self).counters.uploaded == old(self).counters.uploaded,
            final(self).counters.fetched == old(self).counters.fetched,
            final(self).counters.needed_initially == old(self).counters.needed_initially,
            final(self).peers.peers@ == old(self).peers.peers@,
            forall|j: int| 0 <= j < old(self).chunks.states@.len() && j != piece ==>
                #[trigger] final(self).chunks.states@[j] == old(self).chunks.states@[j],
            forall|j: int| 0 <= j < old(self).chunks.blocks@.len() && j != piece ==>
                #[trigger] final(self).chunks.piece_blocks(j) == old(self).chunks.piece_blocks(j),
            success ==> {
                &&& final(self).chunks.states@[piece as int] == PieceState::Verified
                &&& final(self).counters.downloaded_and_checked
                    == if old(self).chunks.states@[piece as int] == PieceState::Complete {
                        old(self).counters.downloaded_and_checked
                            .saturating_add(old(self).lengths.spec_piece_len(piece as int) as u64)
                    } else {
                        old(self).counters.downloaded_and_checked
                    }
            },
            !success ==> {
                &&& final(self).chunks.states@[piece as int] == PieceState::Needed
                &&& final(self).chunks.none_received(piece as int)
                &&& final(self).chunks.selectable(piece as int)
                &&& final(self).counters.downloaded_and_checked == old(self).counters.downloaded_and_checked
            },
    {
        let was_complete = self.chunks.piece_state(piece) == PieceState::Complete;
        if success && was_complete {
            proof {
                assert(self.lengths.valid_piece(piece as int));
                self.lengths.lemma_piece_in_range(piece as int);
            }
            let len = self.lengths.piece_len(piece as u64);
            self.counters.downloaded_and_checked =
                self.counters.downloaded_and_checked.saturating_add(len);
        }
        self.chunks.on_piece_verified(piece, success);
    }

    /// Select the next block to fetch; see `ChunkTracker::next_block`.
    pub fn next_block(&self, preferred: Option<usize>) -> (r: Option<(usize, usize)>)
        requires
            self.wf(),
        ensures
            match r {
                Some(pb) => {
                    &&& self.chunks.selectable(pb.0 as int)
                    &&& self.chunks.first_missing(pb.0 as int, pb.1 as int)
                },
                None => forall|p: int| !self.chunks.selectable(p),
            },
            match preferred {
                Some(pp) => self.chunks.selectable(pp as int) ==> (r matches Some(pb) && pb.0 == pp),
                None => r matches Some(pb) ==> forall|p: int| 0 <= p < pb.0 ==> !self.chunks.selectable(p),
            },
            (exists|p: int| self.chunks.selectable(p)) ==> r is Some,
    {
        self.chunks.next_block(preferred)
    }

    /// Whether `data` hashes to the descriptor's expected digest for
    /// `piece`.
    pub fn check_piece(&self, piece: usize, data: &Vec<u8>) -> (r: bool)
        requires
            self.wf(),
            piece < self.piece_hashes@.len(),
        ensures
            r == (sha1_of(data@) == self.piece_hashes@[piece as int]@),
    {
        piece_hash_matches(data, &self.piece_hashes[piece])
    }
}

} // verus!
