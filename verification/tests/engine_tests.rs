use torrent_engine::EngineError;
use torrent_engine::chunk_tracker::ChunkTracker;
use torrent_engine::chunk_tracker::PieceState;
use torrent_engine::file_map::FileMap;
use torrent_engine::hashing::hash_piece_data;
use torrent_engine::init_check::InitialCheck;
use torrent_engine::lengths::Lengths;
use torrent_engine::state::PeerAddr;
use torrent_engine::state::TorrentState;
use torrent_engine::state::make_lengths;

#[test]
fn lengths_partition_even_total() {
    let l = Lengths::new(1000, 100, None).unwrap();
    assert_eq!(l.piece_count(), 10);
    assert_eq!(l.piece_offset(0), 0);
    assert_eq!(l.piece_offset(9), 900);
    // total divides evenly: the last piece has the full piece length
    assert_eq!(l.piece_len(9), 100);
    let mut sum: u64 = 0;
    for p in 0..10 {
        assert_eq!(l.piece_offset(p), p * 100);
        sum += l.piece_len(p);
    }
    assert_eq!(sum, 1000);
}

#[test]
fn lengths_partition_short_last_piece() {
    let l = Lengths::new(1050, 100, None).unwrap();
    assert_eq!(l.piece_count(), 11);
    // the last piece is total mod piece_length
    assert_eq!(l.piece_len(10), 50);
    assert_eq!(l.piece_offset(10), 1000);
    let mut sum: u64 = 0;
    for p in 0..11 {
        sum += l.piece_len(p);
    }
    assert_eq!(sum, 1050);
}

#[test]
fn lengths_blocks_of_short_piece() {
    let l = Lengths::new(25, 10, Some(4)).unwrap();
    assert_eq!(l.piece_count(), 3);
    assert_eq!(l.blocks_per_piece(0), 3);
    assert_eq!(l.block_len(0, 0), 4);
    assert_eq!(l.block_len(0, 2), 2);
    // final piece: 5 bytes in blocks of 4
    assert_eq!(l.piece_len(2), 5);
    assert_eq!(l.blocks_per_piece(2), 2);
    assert_eq!(l.block_len(2, 0), 4);
    assert_eq!(l.block_len(2, 1), 1);
    assert_eq!(l.block_offset(2, 1), 4);
}

#[test]
fn lengths_rejects_bad_geometry() {
    assert_eq!(Lengths::new(0, 100, None).unwrap_err(), EngineError::InvalidGeometry);
    assert_eq!(Lengths::new(100, 0, None).unwrap_err(), EngineError::InvalidGeometry);
    assert_eq!(Lengths::new(100, 10, Some(0)).unwrap_err(), EngineError::InvalidGeometry);
    assert_eq!(Lengths::new(100, 10, Some(11)).unwrap_err(), EngineError::InvalidGeometry);
    assert!(Lengths::new(100, 10, Some(10)).is_ok());
}

#[test]
fn file_map_total_and_make_lengths() {
    let m = FileMap::new(vec![150, 50]).unwrap();
    assert_eq!(m.total_length(), 200);
    let l = make_lengths(&m, 100).unwrap();
    assert_eq!(l.total_length, 200);
    assert_eq!(l.piece_count(), 2);
}

#[test]
fn file_map_rejects_overflowing_layout() {
    let r = FileMap::new(vec![u64::MAX, 1]);
    assert_eq!(r.unwrap_err(), EngineError::InvalidGeometry);
}

#[test]
fn resolve_splits_across_file_boundary() {
    // file A holds 1.5 pieces, file B the remaining 0.5: the second piece
    // straddles the boundary and must split into two fragments.
    let piece_length: u64 = 100;
    let m = FileMap::new(vec![150, 50]).unwrap();
    let frags = m.resolve(piece_length, piece_length).unwrap();
    assert_eq!(frags.len(), 2);
    assert_eq!(frags[0].file_id, 0);
    assert_eq!(frags[0].offset, 100);
    assert_eq!(frags[0].len, 50);
    assert_eq!(frags[1].file_id, 1);
    assert_eq!(frags[1].offset, 0);
    assert_eq!(frags[1].len, 50);
    assert_eq!(frags[0].len + frags[1].len, piece_length);
}

#[test]
fn resolve_rejects_out_of_range() {
    let m = FileMap::new(vec![150, 50]).unwrap();
    assert_eq!(m.resolve(150, 100).unwrap_err(), EngineError::OutOfRange);
    assert_eq!(m.resolve(201, 0).unwrap_err(), EngineError::OutOfRange);
    assert!(m.resolve(100, 100).is_ok());
}

#[test]
fn range_within_files_respects_exclusions() {
    let m = FileMap::new(vec![150, 50]).unwrap();
    let only_first = vec![true, false];
    // first piece lies inside file A alone
    assert!(m.range_within_files(0, 100, &only_first));
    // second piece straddles into the excluded file B
    assert!(!m.range_within_files(100, 100, &only_first));
    let all = vec![true, true];
    assert!(m.range_within_files(100, 100, &all));
}

#[test]
fn initial_check_counts_have_and_needed() {
    let l = Lengths::new(250, 100, None).unwrap();
    let mut c = InitialCheck::new(l);
    c.record_piece(true);
    c.record_piece(false);
    c.record_piece(true);
    assert!(c.is_finished());
    assert_eq!(c.have_bytes, 150);
    assert_eq!(c.needed_bytes, 100);
    assert_eq!(c.have_pieces, vec![true, false, true]);
    assert_eq!(c.needed_pieces, vec![false, true, false]);
}

#[test]
fn initial_check_full_sweep_is_idempotent() {
    // a store already fully verified reports nothing needed
    let l = Lengths::new(250, 100, None).unwrap();
    let mut c = InitialCheck::new(l);
    c.record_piece(true);
    c.record_piece(true);
    c.record_piece(true);
    assert_eq!(c.needed_bytes, 0);
    assert_eq!(c.have_bytes, 250);
}

fn fresh_tracker() -> ChunkTracker {
    let l = Lengths::new(25, 10, Some(4)).unwrap();
    let needed = vec![true, true, true];
    let have = vec![false, false, false];
    ChunkTracker::new(&needed, &have, l)
}

#[test]
fn next_block_is_sequential() {
    let t = fresh_tracker();
    assert_eq!(t.next_block(None), Some((0, 0)));
    assert_eq!(t.next_block(Some(2)), Some((2, 0)));
    // a preferred piece that is not selectable falls back to the scan
    assert_eq!(t.next_block(Some(9)), Some((0, 0)));
}

#[test]
fn blocks_written_in_any_order_complete_the_piece() {
    // the piece has three blocks; write them in a scrambled order, as two
    // interleaved peers would
    let mut t = fresh_tracker();
    assert!(!t.mark_block_received(0, 2));
    assert_eq!(t.piece_state(0), PieceState::InProgress);
    assert!(!t.mark_block_received(0, 0));
    assert!(t.mark_block_received(0, 1));
    assert_eq!(t.piece_state(0), PieceState::Complete);
    assert!(t.is_block_received(0, 0));
    assert!(t.is_block_received(0, 1));
    assert!(t.is_block_received(0, 2));
}

#[test]
fn duplicate_block_writes_are_tolerated() {
    let mut t = fresh_tracker();
    assert!(!t.mark_block_received(1, 0));
    assert!(!t.mark_block_received(1, 0));
    assert_eq!(t.piece_state(1), PieceState::InProgress);
    assert!(!t.mark_block_received(1, 1));
    assert!(t.mark_block_received(1, 2));
    // further duplicates on a complete piece change nothing
    assert!(!t.mark_block_received(1, 2));
    assert_eq!(t.piece_state(1), PieceState::Complete);
}

#[test]
fn failed_verification_fully_resets_the_piece() {
    let mut t = fresh_tracker();
    t.mark_block_received(0, 0);
    t.mark_block_received(0, 1);
    assert!(t.mark_block_received(0, 2));
    t.on_piece_verified(0, false);
    assert_eq!(t.piece_state(0), PieceState::Needed);
    assert!(!t.is_block_received(0, 0));
    assert!(!t.is_block_received(0, 1));
    assert!(!t.is_block_received(0, 2));
    // its blocks are handed out again
    assert_eq!(t.next_block(None), Some((0, 0)));
}

#[test]
fn verified_pieces_are_skipped() {
    let mut t = fresh_tracker();
    t.mark_block_received(0, 0);
    t.mark_block_received(0, 1);
    assert!(t.mark_block_received(0, 2));
    t.on_piece_verified(0, true);
    assert_eq!(t.piece_state(0), PieceState::Verified);
    assert_eq!(t.next_block(None), Some((1, 0)));
    assert_eq!(t.next_block(Some(0)), Some((1, 0)));
}

#[test]
fn seeded_have_pieces_start_verified() {
    let l = Lengths::new(25, 10, Some(4)).unwrap();
    let needed = vec![false, true, false];
    let have = vec![true, false, true];
    let t = ChunkTracker::new(&needed, &have, l);
    assert_eq!(t.piece_state(0), PieceState::Verified);
    assert_eq!(t.piece_state(1), PieceState::Needed);
    assert_eq!(t.piece_state(2), PieceState::Verified);
    assert_eq!(t.next_block(None), Some((1, 0)));
}

fn two_piece_state() -> (TorrentState, Vec<u8>, Vec<u8>) {
    // one 20-byte file, two 10-byte pieces, one block per piece
    let piece0 = vec![65u8; 10];
    let piece1 = vec![66u8; 10];
    let hashes = vec![hash_piece_data(&piece0), hash_piece_data(&piece1)];
    let l = Lengths::new(20, 10, None).unwrap();
    let m = FileMap::new(vec![20]).unwrap();
    let mut c = InitialCheck::new(l);
    c.record_piece(false);
    c.record_piece(false);
    let s = TorrentState::new(l, m, &c, vec![7u8; 20], vec![9u8; 20], hashes);
    (s, piece0, piece1)
}

#[test]
fn piece_hash_round_trip() {
    // written bytes verify against the descriptor exactly when they match
    // the bytes the descriptor was built from
    let (s, piece0, _) = two_piece_state();
    assert!(s.check_piece(0, &piece0));
    let mut corrupted = piece0.clone();
    corrupted[3] ^= 1;
    assert!(!s.check_piece(0, &corrupted));
    assert!(!s.check_piece(1, &piece0));
}

#[test]
fn hash_digest_of_empty_input_is_the_known_constant() {
    let d = hash_piece_data(&Vec::new());
    let expected: Vec<u8> = vec![
        0xda, 0x39, 0xa3, 0xee, 0x5e, 0x6b, 0x4b, 0x0d, 0x32, 0x55, 0xbf, 0xef, 0x95, 0x60,
        0x18, 0x90, 0xaf, 0xd8, 0x07, 0x09,
    ];
    assert_eq!(d, expected);
}

#[test]
fn counters_survive_duplicate_and_wasted_writes() {
    let (mut s, _, _) = two_piece_state();
    assert_eq!(s.get_left_to_download_bytes(), 20);
    assert!(s.on_block_written(0, 0, 10));
    // a duplicate write is tolerated and still counted as fetched
    assert!(!s.on_block_written(0, 0, 10));
    assert_eq!(s.get_downloaded_bytes(), 20);
    // nothing verified yet: everything is still left
    assert_eq!(s.get_left_to_download_bytes(), 20);
    s.on_piece_verified(0, true);
    assert_eq!(s.get_left_to_download_bytes(), 10);
    assert!(s.on_block_written(1, 0, 10));
    s.on_piece_verified(1, true);
    assert_eq!(s.get_left_to_download_bytes(), 0);
    // wasted writes after completion never push the remainder below zero
    s.on_block_written(1, 0, 10);
    assert_eq!(s.get_left_to_download_bytes(), 0);
    assert!(s.get_left_to_download_bytes() <= 20);
    assert_eq!(s.get_downloaded_bytes(), 40);
}

#[test]
fn corrupt_piece_is_redownloaded_and_recounted() {
    let (mut s, _, _) = two_piece_state();
    assert!(s.on_block_written(0, 0, 10));
    s.on_piece_verified(0, false);
    // the raw fetched counter keeps the wasted bytes
    assert_eq!(s.get_downloaded_bytes(), 10);
    assert_eq!(s.get_left_to_download_bytes(), 20);
    // the piece's block is selectable again
    assert_eq!(s.next_block(None), Some((0, 0)));
    assert!(s.on_block_written(0, 0, 10));
    s.on_piece_verified(0, true);
    assert_eq!(s.get_left_to_download_bytes(), 10);
}

#[test]
fn uploaded_counter_accumulates() {
    let (mut s, _, _) = two_piece_state();
    s.add_uploaded(123);
    s.add_uploaded(2);
    assert_eq!(s.get_uploaded_bytes(), 125);
}

#[test]
fn peer_set_deduplicates() {
    let (mut s, _, _) = two_piece_state();
    let a = PeerAddr { ip: 16909060, port: 6881 };
    let b = PeerAddr { ip: 16909060, port: 6882 };
    assert!(s.add_peer_if_not_seen(a));
    assert!(!s.add_peer_if_not_seen(a));
    assert!(s.add_peer_if_not_seen(b));
    assert_eq!(s.peers.len(), 2);
}
