use vstd::prelude::*;
use crate::attacks::{
    AttackTables, between, diag_reaches, knight_attack, lemma_lookup, orth_reaches, pawn_attack,
};
use crate::bitboard::{Bitboard, bit_at, compact, lemma_bits, single};
use crate::fen::Info;
use crate::chess::Chess;
use crate::min_max::Player;

verus! {

/// What move generation reads of a position: the side to move, whether an
/// en-passant square is set, the four castling rights, the twelve boards and
/// the occupancy masks.
pub struct MoveGenInfo {
    pub current_player_is_white: bool,
    pub has_en_passant: bool,
    pub has_long_white_rights: bool,
    pub has_short_white_rights: bool,
    pub has_long_black_rights: bool,
    pub has_short_black_rights: bool,
    pub w_pawns: Bitboard,
    pub b_pawns: Bitboard,
    pub w_knights: Bitboard,
    pub b_knights: Bitboard,
    pub w_bishops: Bitboard,
    pub b_bishops: Bitboard,
    pub w_rooks: Bitboard,
    pub b_rooks: Bitboard,
    pub w_queens: Bitboard,
    pub b_queens: Bitboard,
    pub w_kings: Bitboard,
    pub b_kings: Bitboard,
    pub white_mask: Bitboard,
    pub black_mask: Bitboard,
    pub occupied: Bitboard,
}

/// Whether `k` is the lowest square of `x`.
pub open spec fn lowest(x: u64, k: int) -> bool {
    bit_at(x, k) && forall|j: int| 0 <= j < k ==> !#[trigger] bit_at(x, j)
}

impl MoveGenInfo {
    pub open spec fn white(&self) -> bool {
        self.current_player_is_white
    }

    pub open spec fn king_bits(&self) -> u64 {
        if self.white() {
            self.w_kings.0
        } else {
            self.b_kings.0
        }
    }

    pub open spec fn enemy_pawn_bits(&self) -> u64 {
        if self.white() {
            self.b_pawns.0
        } else {
            self.w_pawns.0
        }
    }

    pub open spec fn enemy_knight_bits(&self) -> u64 {
        if self.white() {
            self.b_knights.0
        } else {
            self.w_knights.0
        }
    }

    /// Enemy bishops and queens.
    pub open spec fn enemy_diag_bits(&self) -> u64 {
        if self.white() {
            self.b_bishops.0 | self.b_queens.0
        } else {
            self.w_bishops.0 | self.w_queens.0
        }
    }

    /// Enemy rooks and queens.
    pub open spec fn enemy_orth_bits(&self) -> u64 {
        if self.white() {
            self.b_rooks.0 | self.b_queens.0
        } else {
            self.w_rooks.0 | self.w_queens.0
        }
    }

    /// Whether the enemy piece on `t` is a sliding piece giving check to the
    /// king on `k` along an open line.
    pub open spec fn slider_checker(&self, k: int, t: int) -> bool {
        ||| diag_reaches(k, self.occupied.0, t) && bit_at(self.enemy_diag_bits(), t)
        ||| orth_reaches(k, self.occupied.0, t) && bit_at(self.enemy_orth_bits(), t)
    }

    /// Whether the enemy piece on `t` gives check to the king on `k`.
    pub open spec fn checker(&self, k: int, t: int) -> bool {
        ||| pawn_attack(self.white(), k, t) && bit_at(self.enemy_pawn_bits(), t)
        ||| knight_attack(k, t) && bit_at(self.enemy_knight_bits(), t)
        ||| self.slider_checker(k, t)
    }

    /// Whether occupying `t` resolves a check on the king on `k`: capturing a
    /// checking piece, or standing between a sliding checker and the king.
    pub open spec fn resolves(&self, k: int, t: int) -> bool {
        self.checker(k, t) || exists|c: int| self.slider_checker(k, c) && #[trigger] between(c, k, t)
    }

    pub fn own_pawns(&self) -> (r: Bitboard)
        ensures
            r == if self.white() {
                self.w_pawns
            } else {
                self.b_pawns
            },
    {
        if self.current_player_is_white {
            self.w_pawns
        } else {
            self.b_pawns
        }
    }

    pub fn own_knights(&self) -> (r: Bitboard)
        ensures
            r == if self.white() {
                self.w_knights
            } else {
                self.b_knights
            },
    {
        if self.current_player_is_white {
            self.w_knights
        } else {
            self.b_knights
        }
    }

    pub fn own_king(&self) -> (r: Bitboard)
        ensures
            r.0 == self.king_bits(),
    {
        if self.current_player_is_white {
            self.w_kings
        } else {
            self.b_kings
        }
    }

    /// The squares not held by the side to move.
    pub fn enemy_or_empty(&self) -> (r: Bitboard)
        ensures
            r.0 == if self.white() {
                !self.white_mask.0
            } else {
                !self.black_mask.0
            },
    {
        if self.current_player_is_white {
            self.white_mask.neg()
        } else {
            self.black_mask.neg()
        }
    }

    pub fn enemy_pawns(&self) -> (r: Bitboard)
        ensures
            r.0 == self.enemy_pawn_bits(),
    {
        if self.current_player_is_white {
            self.b_pawns
        } else {
            self.w_pawns
        }
    }

    pub fn enemy_knights(&self) -> (r: Bitboard)
        ensures
            r.0 == self.enemy_knight_bits(),
    {
        if self.current_player_is_white {
            self.b_knights
        } else {
            self.w_knights
        }
    }

    pub fn enemy_bishops(&self) -> (r: Bitboard)
        ensures
            r == if self.white() {
                self.b_bishops
            } else {
                self.w_bishops
            },
    {
        if self.current_player_is_white {
            self.b_bishops
        } else {
            self.w_bishops
        }
    }

    pub fn enemy_rooks(&self) -> (r: Bitboard)
        ensures
            r == if self.white() {
                self.b_rooks
            } else {
                self.w_rooks
            },
    {
        if self.current_player_is_white {
            self.b_rooks
        } else {
            self.w_rooks
        }
    }

    pub fn enemy_queens(&self) -> (r: Bitboard)
        ensures
            r == if self.white() {
                self.b_queens
            } else {
                self.w_queens
            },
    {
        if self.current_player_is_white {
            self.b_queens
        } else {
            self.w_queens
        }
    }

    /// The king's square, the enemy pieces giving check to it, and those of
    /// them that slide.
    fn find_checkers(&self, tables: &AttackTables) -> (r: (usize, Bitboard, Bitboard))
        requires
            tables.wf(),
            self.king_bits() != 0,
        ensures
            r.0 < 64,
            lowest(self.king_bits(), r.0 as int),
            forall|t: int| #[trigger] bit_at(r.1.0, t) <==> self.checker(r.0 as int, t),
            forall|t: int| #[trigger] bit_at(r.2.0, t) <==> self.slider_checker(r.0 as int, t),
    {
        let king_sq = self.own_king().tzcnt();
        let ghost k = king_sq as int;
        proof {
            lemma_bits(0, 0, 0);
            lemma_lookup(tables.x_relevant@, tables.x_attacks@, true, k, self.occupied.0);
            lemma_lookup(tables.plus_relevant@, tables.plus_attacks@, false, k, self.occupied.0);
        }
        let pawn_pattern = if self.current_player_is_white {
            tables.white_pawn[king_sq]
        } else {
            tables.black_pawn[king_sq]
        };
        let pawns = pawn_pattern.and(self.enemy_pawns());
        let knights = tables.knight[king_sq].and(self.enemy_knights());
        let x_index = self.occupied.const_pext(tables.x_relevant[king_sq]);
        let diag_pieces = self.enemy_bishops().or(self.enemy_queens());
        let x_len = tables.x_attacks[king_sq].len();
        assert(x_index < x_len);
        let x_attackers = tables.x_attacks[king_sq][x_index as usize].and(diag_pieces);
        let plus_index = self.occupied.const_pext(tables.plus_relevant[king_sq]);
        let orth_pieces = self.enemy_rooks().or(self.enemy_queens());
        let plus_len = tables.plus_attacks[king_sq].len();
        assert(plus_index < plus_len);
        let plus_attackers = tables.plus_attacks[king_sq][plus_index as usize].and(orth_pieces);
        let sliders = x_attackers.or(plus_attackers);
        proof {
            lemma_bits(self.b_bishops.0, self.b_queens.0, 0);
            lemma_bits(self.w_bishops.0, self.w_queens.0, 0);
            lemma_bits(self.b_rooks.0, self.b_queens.0, 0);
            lemma_bits(self.w_rooks.0, self.w_queens.0, 0);
            assert forall|t: int| #[trigger] bit_at(sliders.0, t) <==> self.slider_checker(k, t) by {
                let e = tables.x_attacks@[k]@[x_index as int].0;
                assert(x_index == compact(self.occupied.0, tables.x_relevant@[k].0));
                assert(bit_at(e, t) <==> diag_reaches(k, self.occupied.0, t));
                assert(bit_at(diag_pieces.0, t) <==> bit_at(self.enemy_diag_bits(), t));
                assert(bit_at(x_attackers.0, t) <==> diag_reaches(k, self.occupied.0, t) && bit_at(self.enemy_diag_bits(), t));
                assert(bit_at(plus_attackers.0, t) <==> orth_reaches(k, self.occupied.0, t) && bit_at(self.enemy_orth_bits(), t));
            }
            lemma_bits(pawns.0, knights.0, 0);
            assert forall|t: int| #[trigger] bit_at(pawns.0 | knights.0, t) || bit_at(sliders.0, t) <==> self.checker(k, t) by {
                assert(bit_at(pawns.0, t) <==> pawn_attack(self.white(), k, t) && bit_at(self.enemy_pawn_bits(), t));
                assert(bit_at(knights.0, t) <==> knight_attack(k, t) && bit_at(self.enemy_knight_bits(), t));
            }
        }
        let all = pawns.or(knights).or(sliders);
        proof {
            lemma_bits(pawns.0, knights.0, 0);
            lemma_bits(pawns.0 | knights.0, sliders.0, 0);
        }
        (king_sq, all, sliders)
    }

    /// The enemy pieces giving check to the king of the side to move; their
    /// number, by `number_of_set_bits`, tells a double check from a single
    /// one.
    pub fn get_checkers(&self, tables: &AttackTables) -> (r: Bitboard)
        requires
            tables.wf(),
            self.king_bits() != 0,
        ensures
            forall|k: int|
                lowest(self.king_bits(), k) ==> forall|t: int| #[trigger] bit_at(r.0, t) <==> self.checker(k, t),
    {
        let (king_sq, all, _) = self.find_checkers(tables);
        proof {
            assert forall|k: int| lowest(self.king_bits(), k) implies k == king_sq by {
                if k < king_sq {
                    assert(!bit_at(self.king_bits(), k));
                } else if k > king_sq {
                    assert(!bit_at(self.king_bits(), king_sq as int));
                }
            }
        }
        all
    }

    /// The squares that resolve every check on the king of the side to
    /// move: the checking pieces and, for each sliding checker, the squares
    /// between it and the king. Every square when there is no check.
    pub fn get_checkmask(&self, tables: &AttackTables) -> (r: Bitboard)
        requires
            tables.wf(),
            self.king_bits() != 0,
        ensures
            forall|k: int|
                lowest(self.king_bits(), k) ==> {
                    &&& (exists|c: int| self.checker(k, c)) ==> forall|t: int|
                        #[trigger] bit_at(r.0, t) <==> self.resolves(k, t)
                    &&& (forall|c: int| !self.checker(k, c)) ==> r.0 == 0xFFFF_FFFF_FFFF_FFFFu64
                },
    {
        let (king_sq, checkers, sliders) = self.find_checkers(tables);
        let ghost k = king_sq as int;
        proof {
            lemma_bits(0, 0, 0);
            assert forall|k2: int| lowest(self.king_bits(), k2) implies k2 == king_sq by {
                if k2 < king_sq {
                    assert(!bit_at(self.king_bits(), k2));
                } else if k2 > king_sq {
                    assert(!bit_at(self.king_bits(), king_sq as int));
                }
            }
        }
        let mut check_mask = checkers;
        let ghost base = check_mask.0;
        let mut rest = sliders;
        while rest.has_bits()
            invariant
                tables.wf(),
                k == king_sq,
                king_sq < 64,
                forall|t: int| #[trigger] bit_at(base, t) <==> self.checker(k, t),
                forall|t: int| #[trigger] bit_at(sliders.0, t) <==> self.slider_checker(k, t),
                forall|t: int| #[trigger] bit_at(rest.0, t) ==> bit_at(sliders.0, t),
                forall|t: int|
                    #[trigger] bit_at(check_mask.0, t) <==> (bit_at(base, t) || exists|c: int|
                        bit_at(sliders.0, c) && !bit_at(rest.0, c) && #[trigger] between(c, k, t)),
            decreases rest.0,
        {
            let c = rest.tzcnt();
            let path = tables.between[c][king_sq];
            let old_mask = check_mask;
            check_mask = check_mask.or(path);
            let old_rest = rest;
            rest = rest.blsr();
            proof {
                assert forall|t: int| #[trigger] bit_at(rest.0, t) <==> bit_at(old_rest.0, t) && t != c by {
                    if bit_at(old_rest.0, t) && t != c {
                        assert(t > c);
                        assert(bit_at(old_rest.0, c as int));
                    }
                }
                assert forall|t: int|
                    #[trigger] bit_at(check_mask.0, t) <==> (bit_at(base, t) || exists|c2: int|
                        bit_at(sliders.0, c2) && !bit_at(rest.0, c2) && #[trigger] between(c2, k, t)) by {
                    if bit_at(path.0, t) {
                        assert(between(c as int, k, t));
                        assert(bit_at(sliders.0, c as int) && !bit_at(rest.0, c as int));
                    }
                    if exists|c2: int| bit_at(sliders.0, c2) && !bit_at(rest.0, c2) && #[trigger] between(c2, k, t) {
                        let c2 = choose|c2: int| bit_at(sliders.0, c2) && !bit_at(rest.0, c2) && #[trigger] between(c2, k, t);
                        if c2 == c {
                            assert(bit_at(path.0, t));
                        } else {
                            assert(!bit_at(old_rest.0, c2));
                            assert(bit_at(old_mask.0, t));
                        }
                    }
                }
                assert(rest.0 < old_rest.0) by {
                    lemma_blsr_smaller(old_rest.0);
                }
            }
        }
        proof {
            assert forall|t: int| #[trigger] bit_at(check_mask.0, t) <==> self.resolves(k, t) by {
                if exists|c2: int| self.slider_checker(k, c2) && #[trigger] between(c2, k, t) {
                    let c2 = choose|c2: int| self.slider_checker(k, c2) && #[trigger] between(c2, k, t);
                    assert(bit_at(sliders.0, c2));
                }
            }
            if exists|c: int| self.checker(k, c) {
                let c = choose|c: int| self.checker(k, c);
                assert(bit_at(check_mask.0, c));
                lemma_nonzero(check_mask.0, c);
            } else {
                assert forall|t: int| 0 <= t < 64 implies #[trigger] bit_at(check_mask.0, t) == bit_at(0u64, t) by {
                    if bit_at(check_mask.0, t) {
                        let c2 = choose|c2: int| self.slider_checker(k, c2) && #[trigger] between(c2, k, t);
                        assert(self.checker(k, c2));
                    }
                }
                crate::bitboard::lemma_bits_ext(check_mask.0, 0);
            }
        }
        if !check_mask.has_bits() {
            check_mask = Bitboard(0xFFFF_FFFF_FFFF_FFFF);
        }
        check_mask
    }
}

impl MoveGenInfo {
    /// Whether the enemy slider on `c` would reach the king on `k` if the
    /// piece on `p` were gone.
    pub open spec fn x_ray_attacker(&self, k: int, p: int, c: int) -> bool {
        let occ = self.occupied.0 & !single(p);
        ||| diag_reaches(k, occ, c) && bit_at(self.enemy_diag_bits(), c)
        ||| orth_reaches(k, occ, c) && bit_at(self.enemy_orth_bits(), c)
    }

    /// Whether the enemy slider on `c` pins the piece on `p` to the king on
    /// `k`: `p` lies strictly between them on a line the slider moves along,
    /// and no other piece stands between them.
    pub open spec fn pinner(&self, k: int, p: int, c: int) -> bool {
        self.x_ray_attacker(k, p, c) && between(c, k, p)
    }

    /// Whether `t` is on the line from the king on `k` to the slider on `c`
    /// that pins the piece on `p`, the slider's square included.
    pub open spec fn pin_line(&self, k: int, p: int, c: int, t: int) -> bool {
        self.pinner(k, p, c) && (t == c || between(c, k, t))
    }

    /// The squares the piece on `sq` may move to without exposing its king:
    /// for a pinned piece the line from the king to the pinning slider,
    /// the slider's square included; every square otherwise.
    #[verifier::rlimit(40)]
    pub fn get_pinmask(&self, tables: &AttackTables, sq: usize) -> (r: Bitboard)
        requires
            tables.wf(),
            self.king_bits() != 0,
            sq < 64,
        ensures
            forall|k: int|
                lowest(self.king_bits(), k) ==> {
                    &&& (exists|c: int| self.pinner(k, sq as int, c)) ==> forall|t: int|
                        #[trigger] bit_at(r.0, t) <==> exists|c: int| #[trigger] self.pin_line(k, sq as int, c, t)
                    &&& (forall|c: int| !self.pinner(k, sq as int, c)) ==> r.0
                        == 0xFFFF_FFFF_FFFF_FFFFu64
                },
    {
        let king_sq = self.own_king().tzcnt();
        let ghost k = king_sq as int;
        let occ = self.occupied.and(Bitboard(1u64 << (sq as u64)).neg());
        proof {
            lemma_bits(0, 0, 0);
            lemma_bits(self.occupied.0, !single(sq as int), sq as int);
            lemma_lookup(tables.x_relevant@, tables.x_attacks@, true, k, occ.0);
            lemma_lookup(tables.plus_relevant@, tables.plus_attacks@, false, k, occ.0);
        }
        let diag_pieces = self.enemy_bishops().or(self.enemy_queens());
        let x_index = occ.const_pext(tables.x_relevant[king_sq]);
        let x_len = tables.x_attacks[king_sq].len();
        assert(x_index < x_len);
        let x_attackers = tables.x_attacks[king_sq][x_index as usize].and(diag_pieces);
        let orth_pieces = self.enemy_rooks().or(self.enemy_queens());
        let plus_index = occ.const_pext(tables.plus_relevant[king_sq]);
        let plus_len = tables.plus_attacks[king_sq].len();
        assert(plus_index < plus_len);
        let plus_attackers = tables.plus_attacks[king_sq][plus_index as usize].and(orth_pieces);
        let candidates = x_attackers.or(plus_attackers);
        proof {
            lemma_bits(self.b_bishops.0, self.b_queens.0, 0);
            lemma_bits(self.w_bishops.0, self.w_queens.0, 0);
            lemma_bits(self.b_rooks.0, self.b_queens.0, 0);
            lemma_bits(self.w_rooks.0, self.w_queens.0, 0);
            assert(occ.0 == self.occupied.0 & !single(sq as int));
            assert forall|t: int| #[trigger] bit_at(candidates.0, t) <==> self.x_ray_attacker(k, sq as int, t) by {
                assert(bit_at(x_attackers.0, t) <==> diag_reaches(k, occ.0, t) && bit_at(self.enemy_diag_bits(), t));
                assert(bit_at(plus_attackers.0, t) <==> orth_reaches(k, occ.0, t) && bit_at(self.enemy_orth_bits(), t));
            }
            assert(occ.0 == self.occupied.0 & !single(sq as int));
        }
        let mut pin_mask = Bitboard(0);
        let mut rest = candidates;
        while rest.has_bits()
            invariant
                tables.wf(),
                k == king_sq,
                king_sq < 64,
                sq < 64,
                forall|t: int| #[trigger] bit_at(rest.0, t) ==> bit_at(candidates.0, t),
                forall|c: int| #[trigger] bit_at(candidates.0, c) <==> self.x_ray_attacker(k, sq as int, c),
                forall|t: int|
                    #[trigger] bit_at(pin_mask.0, t) <==> exists|c: int|
                        #[trigger] self.pin_line(k, sq as int, c, t) && !bit_at(rest.0, c),
            decreases rest.0,
        {
            let c = rest.tzcnt();
            let path = tables.between[c][king_sq];
            let old_mask = pin_mask;
            proof {
                assert(bit_at(candidates.0, c as int));
                assert(bit_at(path.0, sq as int) <==> between(c as int, k, sq as int));
                assert(self.pinner(k, sq as int, c as int) <==> bit_at(path.0, sq as int));
            }
            if path.has_entry_at(sq) {
                pin_mask = pin_mask.or(path).or(Bitboard(1u64 << (c as u64)));
            }
            let old_rest = rest;
            rest = rest.blsr();
            proof {
                lemma_bits(old_mask.0 | path.0, single(c as int), c as int);
                lemma_bits(old_mask.0, path.0, 0);
                assert forall|t: int| #[trigger] bit_at(rest.0, t) <==> bit_at(old_rest.0, t) && t != c by {
                    if bit_at(old_rest.0, t) && t != c {
                        assert(t > c);
                        assert(bit_at(old_rest.0, c as int));
                    }
                }
                lemma_pin_step(*self, k, sq as int, c as int, old_mask.0, pin_mask.0, path.0, old_rest.0, rest.0);
                assert(rest.0 < old_rest.0) by {
                    lemma_blsr_smaller(old_rest.0);
                }
            }
        }
        proof {
            assert forall|t: int| #[trigger] bit_at(pin_mask.0, t) <==> exists|c: int|
                #[trigger] self.pin_line(k, sq as int, c, t) by {
                if exists|c: int| #[trigger] self.pin_line(k, sq as int, c, t) {
                    let c = choose|c: int| #[trigger] self.pin_line(k, sq as int, c, t);
                    assert(!bit_at(rest.0, c));
                }
            }
            if exists|c: int| self.pinner(k, sq as int, c) {
                let c = choose|c: int| self.pinner(k, sq as int, c);
                assert(self.pin_line(k, sq as int, c, c));
                assert(bit_at(pin_mask.0, c));
                lemma_nonzero(pin_mask.0, c);
            } else {
                assert forall|t: int| 0 <= t < 64 implies #[trigger] bit_at(pin_mask.0, t) == bit_at(0u64, t) by {
                }
                crate::bitboard::lemma_bits_ext(pin_mask.0, 0);
            }
        }
        if !pin_mask.has_bits() {
            pin_mask = Bitboard(0xFFFF_FFFF_FFFF_FFFF);
        }
        pin_mask
    }
}

impl MoveGenInfo {
    /// What move generation reads of a position.
    pub fn from_chess(c: &Chess) -> (r: MoveGenInfo)
        ensures
            r.current_player_is_white == (c.current_player == Player::White),
            r.has_en_passant == c.en_passant_square.is_some(),
            r.has_short_white_rights == (c.castle_permissions & 1 != 0),
            r.has_long_white_rights == (c.castle_permissions & 2 != 0),
            r.has_short_black_rights == (c.castle_permissions & 4 != 0),
            r.has_long_black_rights == (c.castle_permissions & 8 != 0),
            r.w_pawns == c.boards@[0] && r.b_pawns == c.boards@[1],
            r.w_knights == c.boards@[2] && r.b_knights == c.boards@[3],
            r.w_bishops == c.boards@[4] && r.b_bishops == c.boards@[5],
            r.w_rooks == c.boards@[6] && r.b_rooks == c.boards@[7],
            r.w_queens == c.boards@[8] && r.b_queens == c.boards@[9],
            r.w_kings == c.boards@[10] && r.b_kings == c.boards@[11],
            r.white_mask == c.white_mask && r.black_mask == c.black_mask,
            r.occupied.0 == c.white_mask.0 | c.black_mask.0,
    {
        MoveGenInfo {
            current_player_is_white: match c.current_player {
                Player::White => true,
                _ => false,
            },
            has_en_passant: c.en_passant_square.is_some(),
            has_long_white_rights: c.castle_permissions & 2 != 0,
            has_short_white_rights: c.castle_permissions & 1 != 0,
            has_long_black_rights: c.castle_permissions & 8 != 0,
            has_short_black_rights: c.castle_permissions & 4 != 0,
            w_pawns: c.boards[0],
            b_pawns: c.boards[1],
            w_knights: c.boards[2],
            b_knights: c.boards[3],
            w_bishops: c.boards[4],
            b_bishops: c.boards[5],
            w_rooks: c.boards[6],
            b_rooks: c.boards[7],
            w_queens: c.boards[8],
            b_queens: c.boards[9],
            w_kings: c.boards[10],
            b_kings: c.boards[11],
            white_mask: c.white_mask,
            black_mask: c.black_mask,
            occupied: c.white_mask.or(c.black_mask),
        }
    }

    /// What move generation reads of a decoded board description.
    pub fn from_info(info: &Info) -> (r: MoveGenInfo)
        ensures
            r.current_player_is_white == info.white,
            r.has_en_passant == info.en_passant_sq.is_some(),
            r.has_long_white_rights == info.long_white_rights,
            r.has_short_white_rights == info.short_white_rights,
            r.has_long_black_rights == info.long_black_rights,
            r.has_short_black_rights == info.short_black_rights,
            r.w_pawns == info.w_pawns && r.b_pawns == info.b_pawns,
            r.w_knights == info.w_knights && r.b_knights == info.b_knights,
            r.w_bishops == info.w_bishops && r.b_bishops == info.b_bishops,
            r.w_rooks == info.w_rooks && r.b_rooks == info.b_rooks,
            r.w_queens == info.w_queens && r.b_queens == info.b_queens,
            r.w_kings == info.w_kings && r.b_kings == info.b_kings,
            r.white_mask == info.white_mask && r.black_mask == info.black_mask,
            r.occupied == info.occupied,
    {
        MoveGenInfo {
            current_player_is_white: info.white,
            has_en_passant: info.en_passant_sq.is_some(),
            has_long_white_rights: info.long_white_rights,
            has_short_white_rights: info.short_white_rights,
            has_long_black_rights: info.long_black_rights,
            has_short_black_rights: info.short_black_rights,
            w_pawns: info.w_pawns,
            b_pawns: info.b_pawns,
            w_knights: info.w_knights,
            b_knights: info.b_knights,
            w_bishops: info.w_bishops,
            b_bishops: info.b_bishops,
            w_rooks: info.w_rooks,
            b_rooks: info.b_rooks,
            w_queens: info.w_queens,
            b_queens: info.b_queens,
            w_kings: info.w_kings,
            b_kings: info.b_kings,
            white_mask: info.white_mask,
            black_mask: info.black_mask,
            occupied: info.occupied,
        }
    }
}

proof fn lemma_pin_step(
    info: MoveGenInfo,
    k: int,
    p: int,
    c: int,
    old_mask: u64,
    new_mask: u64,
    path: u64,
    old_rest: u64,
    new_rest: u64,
)
    requires
        forall|t: int|
            #[trigger] bit_at(old_mask, t) <==> exists|c2: int|
                #[trigger] info.pin_line(k, p, c2, t) && !bit_at(old_rest, c2),
        forall|t: int| #[trigger] bit_at(new_rest, t) <==> bit_at(old_rest, t) && t != c,
        bit_at(old_rest, c),
        forall|t: int| #[trigger] bit_at(path, t) <==> between(c, k, t),
        info.pinner(k, p, c) ==> forall|t: int|
            #[trigger] bit_at(new_mask, t) <==> (bit_at(old_mask, t) || bit_at(path, t) || t == c),
        !info.pinner(k, p, c) ==> new_mask == old_mask,
    ensures
        forall|t: int|
            #[trigger] bit_at(new_mask, t) <==> exists|c2: int|
                #[trigger] info.pin_line(k, p, c2, t) && !bit_at(new_rest, c2),
{
    assert forall|t: int|
        #[trigger] bit_at(new_mask, t) <==> exists|c2: int|
            #[trigger] info.pin_line(k, p, c2, t) && !bit_at(new_rest, c2) by {
        if bit_at(new_mask, t) {
            if bit_at(old_mask, t) {
                let c2 = choose|c2: int|
                    #[trigger] info.pin_line(k, p, c2, t) && !bit_at(old_rest, c2);
                assert(!bit_at(new_rest, c2));
            } else {
                assert(info.pinner(k, p, c) && !bit_at(new_rest, c));
                if t != c {
                    assert(between(c, k, t));
                }
                assert(info.pin_line(k, p, c, t));
            }
        }
        if exists|c2: int| #[trigger] info.pin_line(k, p, c2, t) && !bit_at(new_rest, c2) {
            let c2 = choose|c2: int|
                #[trigger] info.pin_line(k, p, c2, t) && !bit_at(new_rest, c2);
            if c2 == c {
                if t != c {
                    assert(bit_at(path, t));
                }
            } else {
                assert(!bit_at(old_rest, c2));
                assert(bit_at(old_mask, t));
            }
        }
    }
}

proof fn lemma_blsr_smaller(x: u64)
    by (bit_vector)
    requires
        x != 0,
    ensures
        x & ((x - 1) as u64) < x,
{
}

proof fn lemma_nonzero(x: u64, t: int)
    requires
        bit_at(x, t),
    ensures
        x != 0,
{
    lemma_bits(0, 0, 0);
}

/// With a single checking piece, and that piece a slider, the squares that
/// resolve the check are exactly the checker's square and the squares
/// between it and the king: a move of any other piece resolves the check
/// exactly when it captures the checker or blocks the line.
pub proof fn lemma_single_slider_check(info: MoveGenInfo, k: int, c: int, t: int)
    requires
        info.slider_checker(k, c),
        forall|c2: int| #[trigger] info.checker(k, c2) ==> c2 == c,
    ensures
        info.resolves(k, t) <==> (t == c || between(c, k, t)),
{
    assert(info.checker(k, c));
    if exists|c2: int| info.slider_checker(k, c2) && #[trigger] between(c2, k, t) {
        let c2 = choose|c2: int| info.slider_checker(k, c2) && #[trigger] between(c2, k, t);
        assert(info.checker(k, c2));
    }
}

} // verus!
