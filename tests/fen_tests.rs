use board_kernel::chess::Chess;
use board_kernel::codec::Piece;
use board_kernel::fen::{FENParsingError, Info};
use board_kernel::min_max::Player;
use board_kernel::zobrist::HashKeys;

const START: &str = "rnbqkbnr/pppppppp/8/8/8/8/PPPPPPPP/RNBQKBNR w KQkq - 0 1";

fn keys() -> HashKeys {
    let piece_keys: Vec<u64> = (0..768u64).map(|i| i.wrapping_mul(0x9E37_79B9_7F4A_7C15) ^ 0x1234).collect();
    let castling_keys: Vec<u64> = (0..16u64).map(|i| i.wrapping_mul(0xC2B2_AE3D_27D4_EB4F) + 7).collect();
    let en_passant_keys: Vec<u64> = (0..64u64).map(|i| i.wrapping_mul(0x1656_67B1_9E37_79F9) + 3).collect();
    HashKeys::from_parts(piece_keys, 0xDEAD_BEEF, castling_keys, en_passant_keys).unwrap()
}

#[test]
fn reads_the_start_position() {
    let info = Info::from_fen(START).unwrap();
    assert!(info.white);
    assert!(info.short_white_rights && info.long_white_rights);
    assert!(info.short_black_rights && info.long_black_rights);
    assert_eq!(info.en_passant_sq, None);
    assert_eq!(info.fifty_count, 0);
    assert_eq!(info.fullmove_count, 1);
    assert_eq!(info.w_pawns.0, 0xFF00);
    assert_eq!(info.b_pawns.0, 0x00FF_0000_0000_0000);
    assert_eq!(info.w_knights.0, 0x42);
    assert_eq!(info.b_kings.0, 0x1000_0000_0000_0000);
    assert_eq!(info.w_queens.0, 0x08);
    assert_eq!(info.white_mask.0, 0xFFFF);
    assert_eq!(info.black_mask.0, 0xFFFF_0000_0000_0000);
    assert_eq!(info.occupied.0, 0xFFFF_0000_0000_FFFF);
}

#[test]
fn start_description_gives_the_start_position() {
    let info = Info::from_fen(START).unwrap();
    let a = Chess::from_info(&info, keys()).unwrap();
    let b = Chess::new(keys());
    for i in 0..12 {
        assert_eq!(a.boards[i], b.boards[i]);
    }
    assert_eq!(a.white_mask, b.white_mask);
    assert_eq!(a.black_mask, b.black_mask);
    assert_eq!(a.castle_permissions, 15);
    assert_eq!(a.zobrist_hash.key, b.zobrist_hash.key);
}

#[test]
fn reads_side_square_and_counters() {
    let info = Info::from_fen("rnbqkbnr/pppppppp/8/8/4P3/8/PPPP1PPP/RNBQKBNR b Kq e3 12 34").unwrap();
    assert!(!info.white);
    assert!(info.short_white_rights && !info.long_white_rights);
    assert!(!info.short_black_rights && info.long_black_rights);
    assert_eq!(info.en_passant_sq, Some(20));
    assert_eq!(info.fifty_count, 12);
    assert_eq!(info.fullmove_count, 34);
    assert!(info.w_pawns.has_entry_at(28));
    assert!(!info.w_pawns.has_entry_at(12));
    let c = Chess::from_info(&info, keys()).unwrap();
    assert_eq!(c.current_player, Player::Black);
    assert_eq!(c.castle_permissions, 1 | 8);
    assert_eq!(c.en_passant_square, Some(20));
    assert_eq!(c.hundred_count, 12);
    assert_eq!(c.zobrist_hash.key, c.compute_hash());
    assert!(c.boards[Piece::Wp.index()].has_entry_at(28));
}

#[test]
fn missing_fields() {
    assert_eq!(Info::from_fen("8/8/8/8/8/8/8/8 w - - 0").unwrap_err(), FENParsingError::InvalidFen);
    assert_eq!(Info::from_fen("").unwrap_err(), FENParsingError::InvalidFen);
}

#[test]
fn counters_must_be_numbers() {
    assert_eq!(Info::from_fen("8/8/8/8/8/8/8/8 w - - x 1").unwrap_err(), FENParsingError::ParseIntError);
    assert_eq!(Info::from_fen("8/8/8/8/8/8/8/8 w - - 0 ").unwrap_err(), FENParsingError::ParseIntError);
    assert_eq!(
        Info::from_fen("8/8/8/8/8/8/8/8 w - - 0 99999999999999999999999").unwrap_err(),
        FENParsingError::ParseIntError
    );
}

#[test]
fn en_passant_file_and_rank() {
    assert_eq!(Info::from_fen("8/8/8/8/8/8/8/8 w - z3 0 1").unwrap_err(), FENParsingError::FileParseError);
    assert_eq!(Info::from_fen("8/8/8/8/8/8/8/8 w - e9 0 1").unwrap_err(), FENParsingError::RankParseError);
    assert_eq!(Info::from_fen("8/8/8/8/8/8/8/8 w - e 0 1").unwrap_err(), FENParsingError::RankParseError);
    assert_eq!(Info::from_fen("8/8/8/8/8/8/8/8 w - E6 0 1").unwrap().en_passant_sq, Some(44));
}

#[test]
fn bad_rights_side_or_pieces() {
    assert_eq!(Info::from_fen("8/8/8/8/8/8/8/8 w KX - 0 1").unwrap_err(), FENParsingError::InvalidFen);
    assert_eq!(Info::from_fen("8/8/8/8/8/8/8/8 x - - 0 1").unwrap_err(), FENParsingError::InvalidFen);
    assert_eq!(Info::from_fen("8/8/8/8/8/8/8/7X w - - 0 1").unwrap_err(), FENParsingError::InvalidFen);
    assert_eq!(Info::from_fen("8/8/8/8/8/8/8/8/8 w - - 0 1").unwrap_err(), FENParsingError::InvalidFen);
    assert_eq!(Info::from_fen("8/8/8/8/8/8/8/8P w - - 0 1").unwrap_err(), FENParsingError::InvalidFen);
}

#[test]
fn overlapping_boards_are_refused() {
    let mut info = Info::from_fen(START).unwrap();
    info.w_queens.set_bit(8);
    assert!(Chess::from_info(&info, keys()).is_none());
    let mut far = Info::from_fen(START).unwrap();
    far.en_passant_sq = Some(64);
    assert!(Chess::from_info(&far, keys()).is_none());
}
