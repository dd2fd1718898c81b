use board_kernel::attacks::{between_squares, relevant_mask, slider_attacks, AttackTables};
use board_kernel::bitboard::{unfold_occupancy, Bitboard};
use board_kernel::movegen::MoveGenInfo;
use board_kernel::chess::Chess;
use board_kernel::codec::{Action, Piece};
use board_kernel::zobrist::HashKeys;

fn bits(squares: &[usize]) -> u64 {
    squares.iter().fold(0u64, |acc, &s| acc | (1u64 << s))
}

fn ray_cast(sq: usize, occ: u64, dirs: &[(i64, i64)]) -> u64 {
    let mut out = 0u64;
    for &(df, dr) in dirs {
        let (mut f, mut r) = ((sq % 8) as i64, (sq / 8) as i64);
        loop {
            f += df;
            r += dr;
            if !(0..8).contains(&f) || !(0..8).contains(&r) {
                break;
            }
            let t = (f + 8 * r) as u64;
            out |= 1 << t;
            if occ & (1 << t) != 0 {
                break;
            }
        }
    }
    out
}

const ORTH: [(i64, i64); 4] = [(1, 0), (-1, 0), (0, 1), (0, -1)];
const DIAG: [(i64, i64); 4] = [(1, 1), (1, -1), (-1, 1), (-1, -1)];

#[test]
fn knight_and_pawn_patterns() {
    let t = AttackTables::new();
    assert_eq!(t.knight[0].0, bits(&[10, 17]));
    assert_eq!(t.knight[27].0, bits(&[10, 12, 17, 21, 33, 37, 42, 44]));
    assert_eq!(t.knight[63].0, bits(&[46, 53]));
    assert_eq!(t.white_pawn[12].0, bits(&[19, 21]));
    assert_eq!(t.white_pawn[8].0, bits(&[17]));
    assert_eq!(t.black_pawn[52].0, bits(&[43, 45]));
    assert_eq!(t.white_pawn[60].0, 0);
}

#[test]
fn relevant_masks_drop_edges_and_centre() {
    assert_eq!(relevant_mask(0, false), 0x0001_0101_0101_017E);
    assert_eq!(relevant_mask(27, false), 0x0008_0808_7608_0800);
    assert_eq!(relevant_mask(0, true), 0x0040_2010_0804_0200);
    assert_eq!(relevant_mask(27, true), 0x0040_2214_0014_2200);
    assert_eq!(relevant_mask(0, false).count_ones(), 12);
}

#[test]
fn slider_rays_stop_at_blockers() {
    let occ = bits(&[3, 24, 36]);
    assert_eq!(slider_attacks(0, occ, false), bits(&[1, 2, 3, 8, 16, 24]));
    assert_eq!(slider_attacks(0, occ, true), bits(&[9, 18, 27, 36]));
    assert_eq!(slider_attacks(27, 0, false), ray_cast(27, 0, &ORTH));
}

#[test]
fn table_matches_independent_ray_cast() {
    let t = AttackTables::new();
    for sq in 0..64 {
        for (diag, rel, rows, dirs) in [
            (false, &t.plus_relevant, &t.plus_attacks, &ORTH),
            (true, &t.x_relevant, &t.x_attacks, &DIAG),
        ] {
            let mask = rel[sq];
            assert_eq!(mask.0, relevant_mask(sq, diag));
            let n = mask.number_of_set_bits();
            assert_eq!(rows[sq].len(), 1usize << n);
            let step = if n > 9 { 7 } else { 1 };
            let mut x = 0usize;
            while x < rows[sq].len() {
                let occ = unfold_occupancy(x as u64, mask);
                assert_eq!(rows[sq][x].0, ray_cast(sq, occ.0, dirs));
                x += step;
            }
        }
    }
}

#[test]
fn lookup_by_compacted_occupancy() {
    let t = AttackTables::new();
    let occ = 0x0123_4567_89AB_CDEFu64;
    for sq in 0..64 {
        let i = Bitboard(occ).const_pext(t.plus_relevant[sq]) as usize;
        assert_eq!(t.plus_attacks[sq][i].0, ray_cast(sq, occ, &ORTH));
        let j = Bitboard(occ).const_pext(t.x_relevant[sq]) as usize;
        assert_eq!(t.x_attacks[sq][j].0, ray_cast(sq, occ, &DIAG));
    }
}

#[test]
fn squares_between() {
    assert_eq!(between_squares(0, 63), bits(&[9, 18, 27, 36, 45, 54]));
    assert_eq!(between_squares(63, 0), bits(&[9, 18, 27, 36, 45, 54]));
    assert_eq!(between_squares(4, 60), bits(&[12, 20, 28, 36, 44, 52]));
    assert_eq!(between_squares(0, 7), bits(&[1, 2, 3, 4, 5, 6]));
    assert_eq!(between_squares(0, 1), 0);
    assert_eq!(between_squares(0, 17), 0);
    assert_eq!(between_squares(5, 5), 0);
    let t = AttackTables::new();
    assert_eq!(t.between[7][56].0, bits(&[14, 21, 28, 35, 42, 49]));
}

fn empty_info(white: bool) -> MoveGenInfo {
    MoveGenInfo {
        current_player_is_white: white,
        has_en_passant: false,
        has_long_white_rights: false,
        has_short_white_rights: false,
        has_long_black_rights: false,
        has_short_black_rights: false,
        w_pawns: Bitboard(0),
        b_pawns: Bitboard(0),
        w_knights: Bitboard(0),
        b_knights: Bitboard(0),
        w_bishops: Bitboard(0),
        b_bishops: Bitboard(0),
        w_rooks: Bitboard(0),
        b_rooks: Bitboard(0),
        w_queens: Bitboard(0),
        b_queens: Bitboard(0),
        w_kings: Bitboard(0),
        b_kings: Bitboard(0),
        white_mask: Bitboard(0),
        black_mask: Bitboard(0),
        occupied: Bitboard(0),
    }
}

fn fill_masks(i: &mut MoveGenInfo) {
    i.white_mask = Bitboard(
        i.w_pawns.0 | i.w_knights.0 | i.w_bishops.0 | i.w_rooks.0 | i.w_queens.0 | i.w_kings.0,
    );
    i.black_mask = Bitboard(
        i.b_pawns.0 | i.b_knights.0 | i.b_bishops.0 | i.b_rooks.0 | i.b_queens.0 | i.b_kings.0,
    );
    i.occupied = Bitboard(i.white_mask.0 | i.black_mask.0);
}

#[test]
fn no_check_allows_every_square() {
    let t = AttackTables::new();
    let mut i = empty_info(true);
    i.w_kings = Bitboard(bits(&[4]));
    i.b_kings = Bitboard(bits(&[60]));
    i.w_pawns = Bitboard(0xFF00);
    i.b_rooks = Bitboard(bits(&[56, 63]));
    fill_masks(&mut i);
    assert_eq!(i.get_checkmask(&t).0, u64::MAX);
}

#[test]
fn rook_check_gives_its_line() {
    let t = AttackTables::new();
    let mut i = empty_info(true);
    i.w_kings = Bitboard(bits(&[4]));
    i.w_knights = Bitboard(bits(&[18]));
    i.b_rooks = Bitboard(bits(&[60]));
    i.b_kings = Bitboard(bits(&[63]));
    fill_masks(&mut i);
    let mask = i.get_checkmask(&t).0;
    assert_eq!(mask, bits(&[12, 20, 28, 36, 44, 52, 60]));
    assert_eq!(t.knight[18].0 & mask, bits(&[12, 28]));
}

#[test]
fn blocked_slider_gives_no_check() {
    let t = AttackTables::new();
    let mut i = empty_info(true);
    i.w_kings = Bitboard(bits(&[4]));
    i.w_pawns = Bitboard(bits(&[12]));
    i.b_rooks = Bitboard(bits(&[60]));
    i.b_queens = Bitboard(bits(&[40]));
    i.b_kings = Bitboard(bits(&[63]));
    fill_masks(&mut i);
    assert_eq!(i.get_checkmask(&t).0, u64::MAX);
}

#[test]
fn knight_and_pawn_checks() {
    let t = AttackTables::new();
    let mut i = empty_info(true);
    i.w_kings = Bitboard(bits(&[4]));
    i.b_knights = Bitboard(bits(&[19]));
    i.b_kings = Bitboard(bits(&[60]));
    fill_masks(&mut i);
    assert_eq!(i.get_checkmask(&t).0, bits(&[19]));

    let mut j = empty_info(false);
    j.b_kings = Bitboard(bits(&[36]));
    j.w_pawns = Bitboard(bits(&[27, 29, 28]));
    j.w_kings = Bitboard(bits(&[0]));
    fill_masks(&mut j);
    assert_eq!(j.get_checkmask(&t).0, bits(&[27, 29]));
}

#[test]
fn double_check_unions_both_lines() {
    let t = AttackTables::new();
    let mut i = empty_info(false);
    i.b_kings = Bitboard(bits(&[60]));
    i.w_rooks = Bitboard(bits(&[4]));
    i.w_bishops = Bitboard(bits(&[33]));
    i.w_kings = Bitboard(bits(&[0]));
    fill_masks(&mut i);
    assert_eq!(
        i.get_checkmask(&t).0,
        bits(&[4, 12, 20, 28, 36, 44, 52, 33, 42, 51])
    );
}

#[test]
fn side_accessors() {
    let mut i = empty_info(false);
    i.w_pawns = Bitboard(1);
    i.b_pawns = Bitboard(2);
    i.w_knights = Bitboard(4);
    i.b_knights = Bitboard(8);
    i.w_queens = Bitboard(16);
    i.b_rooks = Bitboard(32);
    i.w_bishops = Bitboard(64);
    i.b_kings = Bitboard(128);
    fill_masks(&mut i);
    assert_eq!(i.own_pawns().0, 2);
    assert_eq!(i.enemy_pawns().0, 1);
    assert_eq!(i.own_knights().0, 8);
    assert_eq!(i.enemy_knights().0, 4);
    assert_eq!(i.enemy_queens().0, 16);
    assert_eq!(i.enemy_bishops().0, 64);
    assert_eq!(i.enemy_rooks().0, 0);
    assert_eq!(i.own_king().0, 128);
    assert_eq!(i.enemy_or_empty().0, !(2 | 8 | 32 | 128));
}

#[test]
fn pinned_piece_keeps_to_its_line() {
    let t = AttackTables::new();
    let mut i = empty_info(true);
    i.w_kings = Bitboard(bits(&[4]));
    i.w_knights = Bitboard(bits(&[12]));
    i.w_pawns = Bitboard(bits(&[11]));
    i.b_rooks = Bitboard(bits(&[60]));
    i.b_kings = Bitboard(bits(&[63]));
    fill_masks(&mut i);
    assert_eq!(i.get_pinmask(&t, 12).0, bits(&[12, 20, 28, 36, 44, 52, 60]));
    assert_eq!(i.get_pinmask(&t, 11).0, u64::MAX);
}

#[test]
fn two_blockers_mean_no_pin() {
    let t = AttackTables::new();
    let mut i = empty_info(true);
    i.w_kings = Bitboard(bits(&[4]));
    i.w_knights = Bitboard(bits(&[12]));
    i.w_pawns = Bitboard(bits(&[28]));
    i.b_rooks = Bitboard(bits(&[60]));
    i.b_kings = Bitboard(bits(&[63]));
    fill_masks(&mut i);
    assert_eq!(i.get_pinmask(&t, 12).0, u64::MAX);
    assert_eq!(i.get_pinmask(&t, 28).0, u64::MAX);
}

#[test]
fn diagonal_pin_by_a_queen() {
    let t = AttackTables::new();
    let mut i = empty_info(true);
    i.w_kings = Bitboard(bits(&[4]));
    i.w_bishops = Bitboard(bits(&[11]));
    i.b_queens = Bitboard(bits(&[32]));
    i.b_kings = Bitboard(bits(&[63]));
    fill_masks(&mut i);
    assert_eq!(i.get_pinmask(&t, 11).0, bits(&[11, 18, 25, 32]));
}

#[test]
fn full_lines_through_a_square() {
    let t = AttackTables::new();
    assert_eq!(t.plus_mask[0].0, 0x0101_0101_0101_01FF);
    assert_eq!(t.x_mask[0].0, 0x8040_2010_0804_0201);
    assert_eq!(t.plus_mask[27].0, 0x0808_0808_F708_0808 | (1 << 27));
}

#[test]
fn checkmask_of_a_live_position() {
    let t = AttackTables::new();
    let mut c = Chess::new(HashKeys::random());
    let mv = |p: Piece, from: usize, to: usize| Action {
        moving_piece: p,
        from,
        to,
        is_capture: false,
        captured_piece: Piece::Empty,
        is_en_passant: false,
        is_castling: false,
        is_promotion: false,
        promoted_to: Piece::Empty,
        claim_draw: false,
    };
    c.apply(mv(Piece::Wp, 13, 21));
    c.apply(mv(Piece::Bp, 52, 36));
    c.apply(mv(Piece::Wp, 14, 30));
    assert_eq!(MoveGenInfo::from_chess(&c).get_checkmask(&t).0, u64::MAX);
    c.apply(mv(Piece::Bq, 59, 31));
    let info = MoveGenInfo::from_chess(&c);
    assert_eq!(info.occupied.0, c.white_mask.0 | c.black_mask.0);
    assert_eq!(info.get_checkmask(&t).0, bits(&[31, 22, 13]));
}

#[test]
fn counting_checkers() {
    let t = AttackTables::new();
    let mut i = empty_info(false);
    i.b_kings = Bitboard(bits(&[60]));
    i.w_rooks = Bitboard(bits(&[4]));
    i.w_bishops = Bitboard(bits(&[33]));
    i.w_knights = Bitboard(bits(&[45]));
    i.w_kings = Bitboard(bits(&[0]));
    fill_masks(&mut i);
    let checkers = i.get_checkers(&t);
    assert_eq!(checkers.0, bits(&[4, 33, 45]));
    assert_eq!(checkers.number_of_set_bits(), 3);
    let mut j = empty_info(true);
    j.w_kings = Bitboard(bits(&[4]));
    j.b_kings = Bitboard(bits(&[60]));
    fill_masks(&mut j);
    assert_eq!(j.get_checkers(&t).0, 0);
}
