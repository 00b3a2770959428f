use bytes::Bytes;
use sweet_magnet::clock::Clock;
use sweet_magnet::piece::{Block, Piece, PieceError, PieceManager};

const ABC: [u8; 20] = [
    0xa9, 0x99, 0x3e, 0x36, 0x47, 0x06, 0x81, 0x6a, 0xba, 0x3e, 0x25, 0x71, 0x78, 0x50, 0xc2, 0x6c,
    0x9c, 0xd0, 0xd8, 0x9d,
];

fn block_data(s: &str) -> Bytes {
    Bytes::copy_from_slice(s.as_bytes())
}

fn abc_piece() -> Piece {
    Piece::new(0, ABC, 3, 2)
}

#[test]
fn blocks_tile_the_piece() {
    let piece = Piece::new(4, [7; 20], 40000, 16384);
    let blocks: Vec<(usize, usize, usize)> = piece
        .blocks
        .iter()
        .map(|b| (b.piece_index, b.offset, b.length))
        .collect();
    assert_eq!(blocks, vec![(4, 0, 16384), (4, 16384, 16384), (4, 32768, 7232)]);
    assert_eq!(blocks.iter().map(|b| b.2).sum::<usize>(), piece.length);
    assert_eq!(piece.priority, 1);
    assert!(!piece.downloaded && !piece.verified && !piece.is_complete());
}

#[test]
fn empty_piece_has_no_blocks() {
    let mut piece = Piece::new(0, [0; 20], 0, 0);
    assert!(piece.blocks.is_empty());
    assert!(piece.is_complete());
    assert!(piece.next_block_to_request().is_none());
}

#[test]
fn next_block_is_the_first_open_one() {
    let mut piece = abc_piece();
    piece.next_block_to_request().unwrap().requested = true;
    assert_eq!(piece.next_block_to_request().unwrap().offset, 2);
    piece.next_block_to_request().unwrap().received = true;
    assert!(piece.next_block_to_request().is_none());
}

#[test]
fn right_data_in_any_order_passes_the_check() {
    let mut piece = abc_piece();
    assert!(piece.add_block_data(2, block_data("c")));
    assert!(!piece.verify());
    assert!(piece.add_block_data(0, block_data("ab")));
    assert!(piece.is_complete());
    assert!(piece.verify());
    assert!(piece.verified && piece.downloaded);
}

#[test]
fn wrong_data_starts_the_piece_over() {
    let mut piece = abc_piece();
    assert!(piece.add_block_data(0, block_data("xx")));
    assert!(piece.add_block_data(2, block_data("c")));
    assert!(!piece.verify());
    assert!(!piece.verified);
    for block in &piece.blocks {
        assert!(!block.requested && !block.received && block.data.is_none());
    }
    assert!(piece.add_block_data(0, block_data("ab")));
    assert!(piece.add_block_data(2, block_data("c")));
    assert!(piece.verify());
}

#[test]
fn block_is_taken_once() {
    let mut piece = abc_piece();
    assert!(piece.add_block_data(0, block_data("ab")));
    assert!(!piece.add_block_data(0, block_data("zz")));
    assert!(!piece.add_block_data(1, block_data("b")));
    assert_eq!(piece.blocks[0].data, Some(block_data("ab")));
}

#[test]
fn timed_out_blocks_are_found_and_reset() {
    let mut piece = Piece::new(3, [0; 20], 6, 2);
    for (i, block) in piece.blocks.iter_mut().enumerate() {
        block.requested = true;
        block.request_time = Some(10 * i as u128);
    }
    piece.blocks[0].received = true;
    assert_eq!(piece.timed_out_blocks_at(25, 5), vec![(3, 2)]);
    assert_eq!(piece.timed_out_blocks_at(15, 5), vec![]);
    assert_eq!(piece.timed_out_blocks_at(5, 0), vec![]);
    piece.reset_block(2);
    piece.reset_block(77);
    assert!(!piece.blocks[1].requested);
    assert_eq!(piece.blocks[1].request_time, None);
    assert!(piece.blocks[2].requested);
    let clock = Clock::start();
    assert_eq!(piece.get_timed_out_blocks(&clock, u128::MAX), vec![]);
}

#[test]
fn unverified_piece_is_not_written() {
    let piece = abc_piece();
    let error = piece.write_to_file(0).unwrap_err();
    assert_eq!(error, PieceError::Unverified);
    assert_eq!(error.message(), "Cannot write unverified piece to file");
    assert_eq!(
        PieceError::MissingBlock.message(),
        "Missing block data in verified piece"
    );
}

#[test]
fn verified_piece_without_data_is_incomplete() {
    let mut piece = abc_piece();
    piece.add_block_data(0, block_data("ab"));
    piece.verified = true;
    let write = piece.write_to_file(9).unwrap();
    assert_eq!((write.offset, write.data, write.complete), (9, vec![97, 98], false));
}

fn manager() -> PieceManager {
    PieceManager::new(vec![ABC, ABC], vec![3, 3, 3], 2)
}

#[test]
fn manager_starts_with_all_pieces_needed() {
    let m = manager();
    assert_eq!(m.pieces.len(), 2);
    assert_eq!(m.needed_pieces.iter().copied().collect::<Vec<_>>(), vec![0, 1]);
    assert!(m.in_progress.is_empty() && m.downloaded_pieces.is_empty());
    assert_eq!(m.piece_request_timeout, 30_000_000_000);
    assert!(!m.is_finished());
}

#[test]
fn manager_hands_out_each_piece_once() {
    let mut m = manager();
    assert_eq!(m.next_piece().unwrap().index, 0);
    assert_eq!(m.next_piece().unwrap().index, 1);
    assert!(m.next_piece().is_none());
    assert!(m.in_progress.contains(&0) && m.in_progress.contains(&1));
}

#[test]
fn manager_downloads_and_writes_all_pieces() {
    let mut m = manager();
    m.next_piece();
    m.next_piece();
    assert!(!m.received_block(0, 0, block_data("ab")));
    assert!(m.received_block(0, 2, block_data("c")));
    assert!(!m.received_block(0, 2, block_data("c")));
    assert!(m.downloaded_pieces.contains(&0) && !m.in_progress.contains(&0));
    assert!(!m.received_block(1, 2, block_data("c")));
    assert!(m.received_block(1, 0, block_data("ab")));
    assert!(m.is_finished());
    let writes = m.write_to_file();
    assert_eq!(writes.len(), 2);
    assert_eq!((writes[0].0, writes[0].1.offset), (0, 0));
    assert_eq!((writes[1].0, writes[1].1.offset), (1, 3));
    assert_eq!(writes[1].1.data, "abc".as_bytes());
    assert!(writes[1].1.complete);
}

#[test]
fn manager_needs_a_spoiled_piece_again() {
    let mut m = manager();
    m.next_piece();
    assert!(!m.received_block(0, 0, block_data("zz")));
    assert!(!m.received_block(0, 2, block_data("c")));
    assert!(!m.in_progress.contains(&0));
    assert_eq!(m.needed_pieces.iter().copied().collect::<Vec<_>>(), vec![1, 0]);
    assert_eq!(m.next_piece().unwrap().index, 1);
    assert_eq!(m.next_piece().unwrap().index, 0);
    assert!(m.write_to_file().is_empty());
}

#[test]
fn manager_skips_pieces_that_came_unasked() {
    let mut m = manager();
    m.received_block(0, 0, block_data("ab"));
    assert!(m.received_block(0, 2, block_data("c")));
    assert_eq!(m.next_piece().unwrap().index, 1);
    assert!(!m.received_block(5, 0, block_data("ab")));
}

#[test]
fn manager_gives_up_pieces_that_time_out() {
    let mut m = manager();
    for _ in 0..2 {
        let block = m.next_piece().unwrap().next_block_to_request().unwrap();
        block.requested = true;
        block.request_time = Some(0);
    }
    m.pieces[1].add_block_data(2, block_data("c"));
    m.check_timeouts_at(30_000_000_000);
    assert!(m.in_progress.contains(&0));
    m.check_timeouts_at(30_000_000_001);
    assert!(!m.in_progress.contains(&0));
    assert!(m.in_progress.contains(&1));
    assert!(!m.pieces[1].blocks[0].requested);
    assert_eq!(m.needed_pieces.iter().copied().collect::<Vec<_>>(), vec![0]);
    m.check_timeouts(&Clock::start());
    assert_eq!(m.needed_pieces.len(), 1);
}

#[test]
fn cloned_block_is_the_same() {
    let mut block = Block::new(1, 2, 3);
    block.data = Some(block_data("abc"));
    let copy = block.clone();
    assert_eq!((copy.piece_index, copy.offset, copy.length), (1, 2, 3));
    assert_eq!(copy.data, block.data);
}
