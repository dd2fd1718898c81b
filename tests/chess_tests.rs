use board_kernel::chess::Chess;
use board_kernel::codec::{Action, Piece};
use board_kernel::min_max::Player;
use board_kernel::zobrist::HashKeys;

fn keys() -> HashKeys {
    let mut x: u64 = 0x9E37_79B9_7F4A_7C15;
    let mut next = || {
        x ^= x << 13;
        x ^= x >> 7;
        x ^= x << 17;
        x
    };
    let piece_keys: Vec<u64> = (0..64 * 12).map(|_| next()).collect();
    let side_key = next();
    let castling_keys: Vec<u64> = (0..16).map(|_| next()).collect();
    let en_passant_keys: Vec<u64> = (0..64).map(|_| next()).collect();
    HashKeys::from_parts(piece_keys, side_key, castling_keys, en_passant_keys).unwrap()
}

fn piece_key(k: &HashKeys, p: Piece, sq: usize) -> u64 {
    k.piece_keys[sq * 12 + p.index()]
}

fn mv(piece: Piece, from: usize, to: usize) -> Action {
    Action {
        moving_piece: piece,
        from,
        to,
        is_capture: false,
        captured_piece: Piece::Empty,
        is_en_passant: false,
        is_castling: false,
        is_promotion: false,
        promoted_to: Piece::Empty,
        claim_draw: false,
    }
}

fn capture(piece: Piece, from: usize, to: usize, taken: Piece) -> Action {
    let mut a = mv(piece, from, to);
    a.is_capture = true;
    a.captured_piece = taken;
    a
}

fn snapshot(c: &Chess) -> (Vec<u64>, u64, u64, Player, u8, Option<usize>, usize, u64, usize) {
    (
        c.boards.iter().map(|b| b.0).collect(),
        c.white_mask.0,
        c.black_mask.0,
        c.current_player,
        c.castle_permissions,
        c.en_passant_square,
        c.hundred_count,
        c.zobrist_hash.key,
        c.history.len(),
    )
}

#[test]
fn start_position() {
    let c = Chess::new(keys());
    assert_eq!(c.boards[Piece::Wp.index()].0, 0xFF00);
    assert_eq!(c.boards[Piece::Bk.index()].0, 0x1000_0000_0000_0000);
    assert_eq!(c.boards[Piece::Wk.index()].0, 0x10);
    assert_eq!(c.white_mask.0, 0xFFFF);
    assert_eq!(c.black_mask.0, 0xFFFF_0000_0000_0000);
    assert_eq!(c.castle_permissions, 15);
    assert_eq!(c.current_player, Player::White);
    assert_eq!(c.zobrist_hash.key, c.compute_hash());
}

#[test]
fn start_hash_is_pieces_and_rights() {
    let k = keys();
    let c = Chess::new(keys());
    let mut expected = 0u64;
    let order = [
        Piece::Wp, Piece::Bp, Piece::Wkn, Piece::Bkn, Piece::Wb, Piece::Bb, Piece::Wr, Piece::Br,
        Piece::Wq, Piece::Bq, Piece::Wk, Piece::Bk,
    ];
    for sq in 0..64 {
        for p in order {
            if c.boards[p.index()].has_entry_at(sq) {
                expected ^= piece_key(&k, p, sq);
            }
        }
    }
    for r in [1usize, 2, 4, 8] {
        expected ^= k.castling_keys[r];
    }
    assert_eq!(c.zobrist_hash.key, expected);
}

#[test]
fn pawn_double_advance_hash_delta() {
    let k = keys();
    let mut c = Chess::new(keys());
    let before = c.zobrist_hash.key;
    c.apply(mv(Piece::Wp, 12, 28));
    let expected = before
        ^ piece_key(&k, Piece::Wp, 12)
        ^ piece_key(&k, Piece::Wp, 28)
        ^ k.en_passant_keys[20]
        ^ k.side_key;
    assert_eq!(c.zobrist_hash.key, expected);
    assert_eq!(c.en_passant_square, Some(20));
    assert_eq!(c.current_player, Player::Black);
    assert_eq!(c.zobrist_hash.key, c.compute_hash());
    c.undo();
    assert_eq!(c.zobrist_hash.key, before);
}

#[test]
fn step_takes_the_move_code() {
    let mut a = Chess::new(keys());
    let mut b = Chess::new(keys());
    a.step(mv(Piece::Wkn, 6, 21).to_usize());
    b.apply(mv(Piece::Wkn, 6, 21));
    assert_eq!(snapshot(&a), snapshot(&b));
    assert_eq!(a.hundred_count, 1);
}

#[test]
fn en_passant_capture_clears_passed_pawn() {
    let mut c = Chess::new(keys());
    c.apply(mv(Piece::Wp, 12, 28));
    c.apply(mv(Piece::Bkn, 57, 42));
    c.apply(mv(Piece::Wp, 28, 36));
    c.apply(mv(Piece::Bp, 51, 35));
    assert_eq!(c.en_passant_square, Some(43));
    let mut ep = capture(Piece::Wp, 36, 43, Piece::Bp);
    ep.is_en_passant = true;
    c.apply(ep);
    assert!(!c.boards[Piece::Bp.index()].has_entry_at(35));
    assert!(c.boards[Piece::Wp.index()].has_entry_at(43));
    assert!(!c.boards[Piece::Wp.index()].has_entry_at(36));
    assert!(!c.black_mask.has_entry_at(35));
    assert_eq!(c.hundred_count, 0);
    assert_eq!(c.en_passant_square, None);
    assert_eq!(c.zobrist_hash.key, c.compute_hash());
}

#[test]
fn white_kingside_castling() {
    let mut c = Chess::new(keys());
    let moves = [
        mv(Piece::Wp, 12, 28),
        mv(Piece::Bp, 52, 36),
        mv(Piece::Wkn, 6, 21),
        mv(Piece::Bkn, 57, 42),
        mv(Piece::Wb, 5, 26),
        mv(Piece::Bb, 61, 34),
    ];
    for m in moves {
        c.apply(m);
    }
    let mut castle = mv(Piece::Wk, 4, 6);
    castle.is_castling = true;
    c.apply(castle);
    assert_eq!(c.boards[Piece::Wk.index()].0, 1 << 6);
    assert!(c.boards[Piece::Wr.index()].has_entry_at(5));
    assert!(!c.boards[Piece::Wr.index()].has_entry_at(7));
    assert!(c.boards[Piece::Wr.index()].has_entry_at(0));
    assert_eq!(c.castle_permissions & 3, 0);
    assert_eq!(c.castle_permissions & 12, 12);
    assert_eq!(c.zobrist_hash.key, c.compute_hash());
    assert_eq!(c.hundred_count, 5);
}

#[test]
fn rook_capture_on_its_square_ends_the_right() {
    let mut c = Chess::new(keys());
    let moves = [
        mv(Piece::Wp, 14, 22),
        mv(Piece::Bp, 49, 41),
        mv(Piece::Wb, 5, 14),
        mv(Piece::Bp, 48, 40),
    ];
    for m in moves {
        c.apply(m);
    }
    c.apply(capture(Piece::Wb, 14, 56, Piece::Br));
    assert_eq!(c.castle_permissions, 15 & !8);
    assert_eq!(c.zobrist_hash.key, c.compute_hash());
    assert_eq!(c.hundred_count, 0);
}

#[test]
fn promotion_replaces_the_pawn() {
    let mut c = Chess::new(keys());
    let moves = [
        mv(Piece::Wp, 8, 24),
        mv(Piece::Bp, 49, 33),
        capture(Piece::Wp, 24, 33, Piece::Bp),
        mv(Piece::Bkn, 57, 42),
        mv(Piece::Wp, 33, 41),
        mv(Piece::Bp, 55, 47),
    ];
    for m in moves {
        c.apply(m);
    }
    let mut promo = capture(Piece::Wp, 41, 50, Piece::Bp);
    promo.is_promotion = false;
    c.apply(promo);
    c.apply(mv(Piece::Bp, 47, 39));
    let mut p = capture(Piece::Wp, 50, 57, Piece::Empty);
    p.is_capture = false;
    p.is_promotion = true;
    p.promoted_to = Piece::Wq;
    c.apply(p);
    assert!(c.boards[Piece::Wq.index()].has_entry_at(57));
    assert!(!c.boards[Piece::Wp.index()].has_entry_at(57));
    assert!(!c.boards[Piece::Wp.index()].has_entry_at(50));
    assert_eq!(c.zobrist_hash.key, c.compute_hash());
    c.undo();
    assert!(c.boards[Piece::Wp.index()].has_entry_at(50));
    assert!(!c.boards[Piece::Wq.index()].has_entry_at(57));
}

#[test]
fn undo_restores_every_field() {
    let mut c = Chess::new(keys());
    let start = snapshot(&c);
    let moves = [
        mv(Piece::Wp, 12, 28),
        mv(Piece::Bp, 52, 36),
        mv(Piece::Wkn, 6, 21),
        mv(Piece::Bkn, 57, 42),
        mv(Piece::Wb, 5, 26),
        mv(Piece::Bb, 61, 34),
        capture(Piece::Wkn, 21, 36, Piece::Bp),
        capture(Piece::Bkn, 42, 36, Piece::Wkn),
    ];
    let mut seen = vec![start.clone()];
    for m in moves {
        c.apply(m);
        assert_eq!(c.zobrist_hash.key, c.compute_hash());
        seen.push(snapshot(&c));
    }
    let mut castle = mv(Piece::Wk, 4, 6);
    castle.is_castling = true;
    c.apply(castle);
    c.undo();
    assert_eq!(snapshot(&c), seen[seen.len() - 1]);
    for i in (0..seen.len() - 1).rev() {
        c.undo();
        assert_eq!(snapshot(&c), seen[i]);
        assert_eq!(c.zobrist_hash.key, c.compute_hash());
    }
    assert_eq!(snapshot(&c), start);
}

#[test]
fn random_keys_have_the_right_shape() {
    let k = HashKeys::random();
    assert_eq!(k.piece_keys.len(), 768);
    assert_eq!(k.castling_keys.len(), 16);
    assert_eq!(k.en_passant_keys.len(), 64);
    let c = Chess::new(k);
    assert_eq!(c.zobrist_hash.key, c.compute_hash());
}

#[test]
fn keys_of_the_wrong_length_are_refused() {
    assert!(HashKeys::from_parts(vec![0; 767], 0, vec![0; 16], vec![0; 64]).is_none());
    assert!(HashKeys::from_parts(vec![0; 768], 0, vec![0; 15], vec![0; 64]).is_none());
    assert!(HashKeys::from_parts(vec![0; 768], 0, vec![0; 16], vec![0; 65]).is_none());
}
