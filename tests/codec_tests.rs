use board_kernel::codec::{Action, Piece};

fn quiet(piece: Piece, from: usize, to: usize) -> Action {
    Action {
        moving_piece: piece,
        from,
        to,
        is_capture: false,
        captured_piece: Piece::Empty,
        is_en_passant: false,
        is_castling: false,
        is_promotion: false,
        promoted_to: Piece::Empty,
        claim_draw: false,
    }
}

#[test]
fn code_of_a_pawn_advance() {
    let code = quiet(Piece::Wp, 12, 28).to_usize();
    assert_eq!(code, 12 * 0x10 + 28 * 0x1000 + 12 * 0x20_0000 + 12 * 0x1000_0000);
}

#[test]
fn decode_of_encode_is_identity() {
    let pieces = [
        Piece::Wp, Piece::Bp, Piece::Wkn, Piece::Bkn, Piece::Wb, Piece::Bb, Piece::Wr, Piece::Br,
        Piece::Wq, Piece::Bq, Piece::Wk, Piece::Bk, Piece::Empty,
    ];
    for (i, &p) in pieces.iter().enumerate() {
        for &(from, to) in &[(0usize, 63usize), (63, 0), (12, 28), (37, 37)] {
            for flags in 0..32u32 {
                let a = Action {
                    moving_piece: p,
                    from,
                    to,
                    is_capture: flags & 1 != 0,
                    captured_piece: pieces[(i + 3) % 13],
                    is_en_passant: flags & 2 != 0,
                    is_castling: flags & 4 != 0,
                    is_promotion: flags & 8 != 0,
                    promoted_to: pieces[(i + 7) % 13],
                    claim_draw: flags & 16 != 0,
                };
                assert_eq!(Action::from_usize(a.to_usize()), a);
            }
        }
    }
}

#[test]
fn fields_do_not_overlap() {
    let mut a = quiet(Piece::Empty, 63, 63);
    a.is_capture = true;
    a.captured_piece = Piece::Empty;
    a.is_en_passant = true;
    a.is_castling = true;
    a.is_promotion = true;
    a.promoted_to = Piece::Empty;
    a.claim_draw = true;
    let code = a.to_usize();
    assert!(code < 1 << 33);
    assert_eq!(code >> 32, 1);
    let b = quiet(Piece::Wp, 0, 0);
    assert_eq!(b.to_usize(), 12 * 0x20_0000 + 12 * 0x1000_0000);
}

#[test]
fn piece_indices() {
    assert_eq!(Piece::Wp.index(), 0);
    assert_eq!(Piece::Bk.index(), 11);
    assert_eq!(Piece::Empty.index(), 12);
    assert_eq!(Piece::try_from(9), Some(Piece::Bq));
    assert_eq!(Piece::try_from(12), Some(Piece::Empty));
    assert_eq!(Piece::try_from(13), None);
}

#[test]
fn fields_sit_at_their_bits() {
    let a = Action {
        moving_piece: Piece::Bq,
        from: 0,
        to: 1,
        is_capture: true,
        captured_piece: Piece::Wr,
        is_en_passant: false,
        is_castling: true,
        is_promotion: true,
        promoted_to: Piece::Bkn,
        claim_draw: true,
    };
    let r = a.to_usize();
    assert_eq!(r & 0xF, 9);
    assert_eq!((r >> 4) & 0xFF, 0);
    assert_eq!((r >> 12) & 0xFF, 1);
    assert_eq!((r >> 20) & 1, 1);
    assert_eq!((r >> 21) & 0xF, 6);
    assert_eq!((r >> 25) & 1, 0);
    assert_eq!((r >> 26) & 1, 1);
    assert_eq!((r >> 27) & 1, 1);
    assert_eq!((r >> 28) & 0xF, 3);
    assert_eq!((r >> 32) & 1, 1);
    assert_eq!(Action::from_usize(r), a);
}
