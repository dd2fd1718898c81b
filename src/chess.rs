use vstd::prelude::*;
use crate::bitboard::{Bitboard, bit_at, single, lemma_bits, lemma_bits_ext};
use crate::codec::{Action, Piece, Square, decode, is_code, piece_index, representable};
use crate::min_max::Player;
use crate::zobrist::{HashKeys, ZobristHash};
use crate::fen::Info;

verus! {

pub proof fn lemma_xor_facts(b: u64, s: u64, c: u64, e: u64, k: u64)
    by (bit_vector)
    ensures
        (((b ^ k) ^ s) ^ c) ^ e == (((b ^ s) ^ c) ^ e) ^ k,
        ((b ^ (s ^ k)) ^ c) ^ e == (((b ^ s) ^ c) ^ e) ^ k,
        ((b ^ s) ^ (c ^ k)) ^ e == (((b ^ s) ^ c) ^ e) ^ k,
        ((b ^ s) ^ c) ^ (e ^ k) == (((b ^ s) ^ c) ^ e) ^ k,
        (b ^ k) ^ s == (b ^ s) ^ k,
        b ^ (s ^ k) == (b ^ s) ^ k,
        k ^ k == 0,
        b ^ 0 == b,
        0 ^ b == b,
{
}

/// The contribution of square `sq` to the running hash, over the boards
/// of the pieces of index below `k`.
pub open spec fn square_hash(boards: [Bitboard; 12], keys: HashKeys, sq: int, k: int) -> u64
    decreases k,
{
    if k <= 0 {
        0
    } else {
        square_hash(boards, keys, sq, k - 1) ^ if bit_at(boards@[k - 1].0, sq) {
            keys.piece_key(k - 1, sq)
        } else {
            0
        }
    }
}

/// The part of the running hash that the squares below `n` give.
pub open spec fn board_hash(boards: [Bitboard; 12], keys: HashKeys, n: int) -> u64
    decreases n,
{
    if n <= 0 {
        0
    } else {
        board_hash(boards, keys, n - 1) ^ square_hash(boards, keys, n - 1, 12)
    }
}

pub open spec fn right_term(keys: HashKeys, rights: u8, r: u8) -> u64 {
    if rights & r != 0 {
        keys.castling_key(r as int)
    } else {
        0
    }
}

/// The part of the running hash that the castling rights give: one key per
/// right held.
pub open spec fn castle_hash(keys: HashKeys, rights: u8) -> u64 {
    ((right_term(keys, rights, 1) ^ right_term(keys, rights, 2)) ^ right_term(keys, rights, 4))
        ^ right_term(keys, rights, 8)
}

/// Castling rights, one bit each: white short, white long, black short,
/// black long.
pub open spec fn is_right(r: u8) -> bool {
    r == 1 || r == 2 || r == 4 || r == 8
}

/// Whether a king or rook leaving or being taken on `sq` ends the right `r`.
pub open spec fn right_square(r: u8, sq: int) -> bool {
    ||| r == 1 && (sq == 4 || sq == 7)
    ||| r == 2 && (sq == 4 || sq == 0)
    ||| r == 4 && (sq == 60 || sq == 63)
    ||| r == 8 && (sq == 60 || sq == 56)
}

pub open spec fn right_lost(a: Action, r: u8) -> bool {
    right_square(r, a.from as int) || right_square(r, a.to as int)
}

pub open spec fn rights_after(before: u8, after: u8, a: Action) -> bool {
    &&& after < 16
    &&& forall|r: u8| is_right(r) ==> ((#[trigger] (after & r) != 0) <==> (before & r != 0 && !right_lost(a, r)))
}

proof fn lemma_right_bits(rights: u8, r: u8, q: u8)
    by (bit_vector)
    requires
        rights < 16,
        r == 1 || r == 2 || r == 4 || r == 8,
        q == 1 || q == 2 || q == 4 || q == 8,
    ensures
        ((rights & !r) & q != 0) <==> (rights & q != 0 && q != r),
        (rights & !r) < 16,
        ((rights | r) & q != 0) <==> (rights & q != 0 || q == r),
        (rights | r) < 16,
        (0u8 & q) == 0,
{
}

proof fn lemma_rights_ext(x: u8, y: u8)
    by (bit_vector)
    requires
        x < 16,
        y < 16,
        (x & 1 != 0) == (y & 1 != 0),
        (x & 2 != 0) == (y & 2 != 0),
        (x & 4 != 0) == (y & 4 != 0),
        (x & 8 != 0) == (y & 8 != 0),
    ensures
        x == y,
{
}

/// The rook's part of castling to `to`: rook's piece index, from, to.
pub open spec fn castle_rook(to: int) -> (int, int, int) {
    if to == 6 {
        (6, 7, 5)
    } else if to == 2 {
        (6, 0, 3)
    } else if to == 62 {
        (7, 63, 61)
    } else {
        (7, 56, 59)
    }
}

/// The square of the piece that a capture takes: the square passed over for
/// en passant, the destination otherwise.
pub open spec fn capture_square(a: Action, white: bool) -> int {
    if a.is_en_passant {
        if white {
            a.to - 8
        } else {
            a.to + 8
        }
    } else {
        a.to as int
    }
}

/// The piece that a capture takes.
pub open spec fn captured_of(a: Action, white: bool) -> Piece {
    if !a.is_capture {
        Piece::Empty
    } else if a.is_en_passant {
        if white {
            Piece::Bp
        } else {
            Piece::Wp
        }
    } else {
        a.captured_piece
    }
}

pub open spec fn is_pawn(p: Piece) -> bool {
    p == Piece::Wp || p == Piece::Bp
}

/// The en-passant square after `a`: set only by a two-square pawn advance.
pub open spec fn en_passant_after(a: Action) -> Option<Square> {
    if a.moving_piece == Piece::Wp && a.from + 16 == a.to {
        Some((a.from + 8) as usize)
    } else if a.moving_piece == Piece::Bp && a.to + 16 == a.from {
        Some((a.to + 8) as usize)
    } else {
        None
    }
}

/// What the board of piece index `i` becomes when `a` is applied.
pub open spec fn apply_board(b: u64, i: int, a: Action, white: bool) -> u64 {
    let mi = piece_index(a.moving_piece) as int;
    if a.is_castling {
        let (ri, rf, rt) = castle_rook(a.to as int);
        if i == mi {
            (b & !single(a.from as int)) | single(a.to as int)
        } else if i == ri {
            (b & !single(rf)) | single(rt)
        } else {
            b
        }
    } else {
        let taken = if a.is_capture && i == piece_index(captured_of(a, white)) {
            b & !single(capture_square(a, white))
        } else {
            b
        };
        let moved = if i == mi {
            if a.is_promotion {
                taken & !single(a.from as int)
            } else {
                (taken & !single(a.from as int)) | single(a.to as int)
            }
        } else {
            taken
        };
        if a.is_promotion && i == piece_index(a.promoted_to) {
            moved | single(a.to as int)
        } else {
            moved
        }
    }
}

/// What one applied move leaves behind to be undone.
#[derive(Clone, Copy, PartialEq, Eq, Structural, Debug)]
pub struct UndoRecord {
    pub action: Action,
    pub captured: Piece,
    pub captured_sq: Square,
    pub castle_permissions: u8,
    pub en_passant_square: Option<Square>,
    pub hundred_count: usize,
    pub hash: u64,
}

/// What the board of piece index `i` becomes when the move of `rec` is undone.
pub open spec fn undo_board(b: u64, i: int, rec: UndoRecord) -> u64 {
    let a = rec.action;
    let mi = piece_index(a.moving_piece) as int;
    if a.is_castling {
        let (ri, rf, rt) = castle_rook(a.to as int);
        if i == mi {
            (b & !single(a.to as int)) | single(a.from as int)
        } else if i == ri {
            (b & !single(rt)) | single(rf)
        } else {
            b
        }
    } else {
        let unpromoted = if a.is_promotion && i == piece_index(a.promoted_to) {
            b & !single(a.to as int)
        } else {
            b
        };
        let unmoved = if i == mi {
            if a.is_promotion {
                unpromoted | single(a.from as int)
            } else {
                (unpromoted & !single(a.to as int)) | single(a.from as int)
            }
        } else {
            unpromoted
        };
        if a.is_capture && i == piece_index(rec.captured) {
            unmoved | single(rec.captured_sq as int)
        } else {
            unmoved
        }
    }
}

pub open spec fn record_ok(rec: UndoRecord) -> bool {
    let a = rec.action;
    &&& representable(a)
    &&& piece_index(a.moving_piece) < 12
    &&& a.is_castling ==> (a.to == 6 || a.to == 2 || a.to == 62 || a.to == 58) && (piece_index(
        a.moving_piece,
    ) == 10 || piece_index(a.moving_piece) == 11)
    &&& a.is_capture ==> piece_index(rec.captured) < 12 && rec.captured_sq < 64
    &&& a.is_promotion ==> piece_index(a.promoted_to) < 12
    &&& rec.castle_permissions < 16
    &&& rec.en_passant_square matches Some(sq) ==> sq < 64
}

/// Each color mask is the union of that color's boards.
pub open spec fn masks_match(boards: [Bitboard; 12], white_mask: Bitboard, black_mask: Bitboard) -> bool {
    &&& forall|sq: int|
        #[trigger] bit_at(white_mask.0, sq) <==> exists|i: int|
            0 <= i < 12 && i % 2 == 0 && #[trigger] bit_at(boards@[i].0, sq)
    &&& forall|sq: int|
        #[trigger] bit_at(black_mask.0, sq) <==> exists|i: int|
            0 <= i < 12 && i % 2 == 1 && #[trigger] bit_at(boards@[i].0, sq)
}

/// No square is on two boards.
pub open spec fn boards_disjoint(boards: [Bitboard; 12]) -> bool {
    forall|i: int, j: int, sq: int|
        0 <= i < 12 && 0 <= j < 12 && i != j && #[trigger] bit_at(boards@[i].0, sq)
            ==> !#[trigger] bit_at(boards@[j].0, sq)
}

/// A chess position with its undo stack.
pub struct Chess {
    pub keys: HashKeys,
    pub current_player: Player,
    pub boards: [Bitboard; 12],
    pub white_mask: Bitboard,
    pub black_mask: Bitboard,
    pub castle_permissions: u8,
    pub en_passant_square: Option<Square>,
    pub zobrist_hash: ZobristHash,
    pub history: Vec<UndoRecord>,
    pub hundred_count: usize,
}

impl Chess {
    /// The board of piece index `i`.
    pub open spec fn bb(&self, i: int) -> u64 {
        self.boards@[i].0
    }

    pub open spec fn occupied(&self, sq: int) -> bool {
        exists|i: int| 0 <= i < 12 && #[trigger] bit_at(self.boards@[i].0, sq)
    }

    /// Each color mask is the union of that color's boards.
    pub open spec fn masks_ok(&self) -> bool {
        masks_match(self.boards, self.white_mask, self.black_mask)
    }

    /// No square is on two boards.
    pub open spec fn disjoint(&self) -> bool {
        boards_disjoint(self.boards)
    }

    /// The running hash computed from scratch.
    pub open spec fn full_hash(&self) -> u64 {
        ((board_hash(self.boards, self.keys, 64) ^ if self.current_player == Player::Black {
            self.keys.side_key
        } else {
            0
        }) ^ castle_hash(self.keys, self.castle_permissions)) ^ match self.en_passant_square {
            Some(sq) => self.keys.en_passant_key(sq as int),
            None => 0,
        }
    }

    pub open spec fn structural(&self) -> bool {
        &&& self.keys.wf()
        &&& self.current_player != Player::Nobody
        &&& self.castle_permissions < 16
        &&& self.en_passant_square matches Some(sq) ==> sq < 64
        &&& forall|k: int| 0 <= k < self.history@.len() ==> record_ok(#[trigger] self.history@[k])
    }

    /// The invariant: derived masks in step, no square on two boards, and the
    /// running hash equal to its recomputation.
    pub open spec fn wf(&self) -> bool {
        &&& self.structural()
        &&& self.masks_ok()
        &&& self.disjoint()
        &&& self.zobrist_hash.key == self.full_hash()
    }

    /// Everything but the boards, the masks and the hash is kept.
    pub open spec fn same_rest(&self, other: &Chess) -> bool {
        &&& other.keys == self.keys
        &&& other.current_player == self.current_player
        &&& other.castle_permissions == self.castle_permissions
        &&& other.en_passant_square == self.en_passant_square
        &&& other.history@ == self.history@
        &&& other.hundred_count == self.hundred_count
    }
}

proof fn lemma_square_hash_flip(
    b0: [Bitboard; 12],
    b1: [Bitboard; 12],
    keys: HashKeys,
    p: int,
    s: int,
    sq: int,
    k: int,
)
    requires
        0 <= p < 12,
        0 <= k <= 12,
        forall|i: int| 0 <= i < 12 && i != p ==> b1@[i] == b0@[i],
        forall|t: int| t != s ==> bit_at(b1@[p].0, t) == bit_at(b0@[p].0, t),
        bit_at(b1@[p].0, s) != bit_at(b0@[p].0, s),
    ensures
        square_hash(b1, keys, sq, k) == if sq == s && k > p {
            square_hash(b0, keys, sq, k) ^ keys.piece_key(p, s)
        } else {
            square_hash(b0, keys, sq, k)
        },
    decreases k,
{
    if k > 0 {
        lemma_square_hash_flip(b0, b1, keys, p, s, sq, k - 1);
        let x = square_hash(b0, keys, sq, k - 1);
        let t0 = if bit_at(b0@[k - 1].0, sq) {
            keys.piece_key(k - 1, sq)
        } else {
            0
        };
        let key = keys.piece_key(p, s);
        lemma_xor_facts(x, t0, 0, 0, key);
        lemma_xor_facts(key, 0, 0, 0, key);
        lemma_xor_facts(0, 0, 0, 0, key);
    }
}

proof fn lemma_board_hash_flip(
    b0: [Bitboard; 12],
    b1: [Bitboard; 12],
    keys: HashKeys,
    p: int,
    s: int,
    n: int,
)
    requires
        0 <= p < 12,
        0 <= s < 64,
        0 <= n <= 64,
        forall|i: int| 0 <= i < 12 && i != p ==> b1@[i] == b0@[i],
        forall|t: int| t != s ==> bit_at(b1@[p].0, t) == bit_at(b0@[p].0, t),
        bit_at(b1@[p].0, s) != bit_at(b0@[p].0, s),
    ensures
        board_hash(b1, keys, n) == if n > s {
            board_hash(b0, keys, n) ^ keys.piece_key(p, s)
        } else {
            board_hash(b0, keys, n)
        },
    decreases n,
{
    if n > 0 {
        lemma_board_hash_flip(b0, b1, keys, p, s, n - 1);
        lemma_square_hash_flip(b0, b1, keys, p, s, n - 1, 12);
        let x = board_hash(b0, keys, n - 1);
        let y = square_hash(b0, keys, n - 1, 12);
        lemma_xor_facts(x, y, 0, 0, keys.piece_key(p, s));
    }
}

impl Chess {
    /// Puts `piece` on the empty square `sq`, toggling its key in.
    fn add_piece(&mut self, piece: Piece, sq: Square)
        requires
            old(self).wf(),
            piece_index(piece) < 12,
            sq < 64,
            !old(self).occupied(sq as int),
        ensures
            final(self).wf(),
            old(self).same_rest(final(self)),
            final(self).boards@ == old(self).boards@.update(
                piece_index(piece) as int,
                Bitboard(old(self).bb(piece_index(piece) as int) | single(sq as int)),
            ),
    {
        let i = piece.index();
        let ghost s0 = *self;
        let mut b = self.boards[i];
        b.set_bit(sq);
        self.boards[i] = b;
        if i % 2 == 0 {
            self.white_mask.set_bit(sq);
        } else {
            self.black_mask.set_bit(sq);
        }
        self.zobrist_hash.hash_piece(&self.keys, piece, sq);
        proof {
            assert(bit_at(s0.boards@[i as int].0, sq as int) != bit_at(self.boards@[i as int].0, sq as int));
            lemma_board_hash_flip(s0.boards, self.boards, self.keys, i as int, sq as int, 64);
            let (side, castle, ep) = s0.hash_terms();
            lemma_xor_facts(
                board_hash(s0.boards, s0.keys, 64),
                side,
                castle,
                ep,
                self.keys.piece_key(i as int, sq as int),
            );
            assert(self.zobrist_hash.key == self.full_hash());
            assert forall|t: int| #[trigger] bit_at(self.white_mask.0, t) <==> exists|j: int|
                0 <= j < 12 && j % 2 == 0 && #[trigger] bit_at(self.boards@[j].0, t) by {
                if t == sq && i % 2 == 0 {
                    assert(bit_at(self.boards@[i as int].0, t));
                }
                if bit_at(self.white_mask.0, t) && (t != sq || i % 2 != 0) {
                    assert(bit_at(s0.white_mask.0, t));
                    let j = choose|j: int| 0 <= j < 12 && j % 2 == 0 && #[trigger] bit_at(s0.boards@[j].0, t);
                    assert(bit_at(self.boards@[j].0, t));
                }
                if exists|j: int| 0 <= j < 12 && j % 2 == 0 && #[trigger] bit_at(self.boards@[j].0, t) {
                    let j = choose|j: int| 0 <= j < 12 && j % 2 == 0 && #[trigger] bit_at(self.boards@[j].0, t);
                    if j != i || t != sq {
                        assert(bit_at(s0.boards@[j].0, t));
                    }
                }
            }
            assert forall|t: int| #[trigger] bit_at(self.black_mask.0, t) <==> exists|j: int|
                0 <= j < 12 && j % 2 == 1 && #[trigger] bit_at(self.boards@[j].0, t) by {
                if t == sq && i % 2 == 1 {
                    assert(bit_at(self.boards@[i as int].0, t));
                }
                if bit_at(self.black_mask.0, t) && (t != sq || i % 2 != 1) {
                    assert(bit_at(s0.black_mask.0, t));
                    let j = choose|j: int| 0 <= j < 12 && j % 2 == 1 && #[trigger] bit_at(s0.boards@[j].0, t);
                    assert(bit_at(self.boards@[j].0, t));
                }
                if exists|j: int| 0 <= j < 12 && j % 2 == 1 && #[trigger] bit_at(self.boards@[j].0, t) {
                    let j = choose|j: int| 0 <= j < 12 && j % 2 == 1 && #[trigger] bit_at(self.boards@[j].0, t);
                    if j != i || t != sq {
                        assert(bit_at(s0.boards@[j].0, t));
                    }
                }
            }
            assert forall|j: int, k: int, t: int|
                0 <= j < 12 && 0 <= k < 12 && j != k && #[trigger] bit_at(self.boards@[j].0, t)
                    implies !#[trigger] bit_at(self.boards@[k].0, t) by {
                if bit_at(self.boards@[k].0, t) {
                    if t != sq {
                        assert(bit_at(s0.boards@[j].0, t));
                        assert(bit_at(s0.boards@[k].0, t));
                    } else {
                        assert(!bit_at(s0.boards@[j].0, t));
                        assert(!bit_at(s0.boards@[k].0, t));
                    }
                }
            }
        }
    }

    /// Takes `piece` off `sq`, toggling its key out.
    fn clear_piece(&mut self, piece: Piece, sq: Square)
        requires
            old(self).wf(),
            piece_index(piece) < 12,
            sq < 64,
            bit_at(old(self).bb(piece_index(piece) as int), sq as int),
        ensures
            final(self).wf(),
            old(self).same_rest(final(self)),
            !final(self).occupied(sq as int),
            final(self).boards@ == old(self).boards@.update(
                piece_index(piece) as int,
                Bitboard(old(self).bb(piece_index(piece) as int) & !single(sq as int)),
            ),
    {
        let i = piece.index();
        let ghost s0 = *self;
        let mut b = self.boards[i];
        b.clear_bit(sq);
        self.boards[i] = b;
        if i % 2 == 0 {
            self.white_mask.clear_bit(sq);
        } else {
            self.black_mask.clear_bit(sq);
        }
        self.zobrist_hash.hash_piece(&self.keys, piece, sq);
        proof {
            assert(bit_at(s0.boards@[i as int].0, sq as int) != bit_at(self.boards@[i as int].0, sq as int));
            lemma_board_hash_flip(s0.boards, self.boards, self.keys, i as int, sq as int, 64);
            let (side, castle, ep) = s0.hash_terms();
            lemma_xor_facts(
                board_hash(s0.boards, s0.keys, 64),
                side,
                castle,
                ep,
                self.keys.piece_key(i as int, sq as int),
            );
            assert(self.zobrist_hash.key == self.full_hash());
            assert forall|t: int| #[trigger] bit_at(self.white_mask.0, t) <==> exists|j: int|
                0 <= j < 12 && j % 2 == 0 && #[trigger] bit_at(self.boards@[j].0, t) by {
                if bit_at(self.white_mask.0, t) {
                    assert(bit_at(s0.white_mask.0, t));
                    let j = choose|j: int| 0 <= j < 12 && j % 2 == 0 && #[trigger] bit_at(s0.boards@[j].0, t);
                    assert(bit_at(self.boards@[j].0, t));
                }
                if exists|j: int| 0 <= j < 12 && j % 2 == 0 && #[trigger] bit_at(self.boards@[j].0, t) {
                    let j = choose|j: int| 0 <= j < 12 && j % 2 == 0 && #[trigger] bit_at(self.boards@[j].0, t);
                    assert(bit_at(s0.boards@[j].0, t));
                    if t == sq {
                        assert(j != i);
                        assert(bit_at(s0.boards@[i as int].0, t));
                    }
                }
            }
            assert forall|t: int| #[trigger] bit_at(self.black_mask.0, t) <==> exists|j: int|
                0 <= j < 12 && j % 2 == 1 && #[trigger] bit_at(self.boards@[j].0, t) by {
                if bit_at(self.black_mask.0, t) {
                    assert(bit_at(s0.black_mask.0, t));
                    let j = choose|j: int| 0 <= j < 12 && j % 2 == 1 && #[trigger] bit_at(s0.boards@[j].0, t);
                    assert(bit_at(self.boards@[j].0, t));
                }
                if exists|j: int| 0 <= j < 12 && j % 2 == 1 && #[trigger] bit_at(self.boards@[j].0, t) {
                    let j = choose|j: int| 0 <= j < 12 && j % 2 == 1 && #[trigger] bit_at(self.boards@[j].0, t);
                    assert(bit_at(s0.boards@[j].0, t));
                    if t == sq {
                        assert(j != i);
                        assert(bit_at(s0.boards@[i as int].0, t));
                    }
                }
            }
            assert forall|j: int, k: int, t: int|
                0 <= j < 12 && 0 <= k < 12 && j != k && #[trigger] bit_at(self.boards@[j].0, t)
                    implies !#[trigger] bit_at(self.boards@[k].0, t) by {
                assert(bit_at(s0.boards@[j].0, t));
                if bit_at(self.boards@[k].0, t) {
                    assert(bit_at(s0.boards@[k].0, t));
                }
            }
            assert forall|j: int| 0 <= j < 12 implies !#[trigger] bit_at(self.boards@[j].0, sq as int) by {
                if j != i {
                    assert(!bit_at(s0.boards@[j].0, sq as int));
                }
            }
        }
    }
}

impl Chess {
    /// The side, castling and en-passant terms of the running hash.
    pub open spec fn hash_terms(&self) -> (u64, u64, u64) {
        (
            if self.current_player == Player::Black {
                self.keys.side_key
            } else {
                0
            },
            castle_hash(self.keys, self.castle_permissions),
            match self.en_passant_square {
                Some(sq) => self.keys.en_passant_key(sq as int),
                None => 0,
            },
        )
    }
}

proof fn lemma_unset_set(x: u64, t: u64)
    by (bit_vector)
    requires
        t < 64,
        (x >> t) & 1 != 1,
    ensures
        (x | (1u64 << t)) & !(1u64 << t) == x,
{
}

proof fn lemma_set_unset(x: u64, t: u64)
    by (bit_vector)
    requires
        t < 64,
        (x >> t) & 1 == 1,
    ensures
        (x & !(1u64 << t)) | (1u64 << t) == x,
{
}

proof fn lemma_move_back(x: u64, f: u64, t: u64)
    by (bit_vector)
    requires
        f < 64,
        t < 64,
        f != t,
        (x >> f) & 1 == 1,
        (x >> t) & 1 != 1,
    ensures
        ((((x & !(1u64 << f)) | (1u64 << t)) & !(1u64 << t)) | (1u64 << f)) == x,
        (((x & !(1u64 << f)) | (1u64 << t)) & !(1u64 << t)) == x & !(1u64 << f),
{
}

/// The undo record that applying `a` to `s` pushes.
pub open spec fn record_of(s: Chess, a: Action) -> UndoRecord {
    let white = s.current_player == Player::White;
    UndoRecord {
        action: a,
        captured: captured_of(a, white),
        captured_sq: if a.is_capture {
            capture_square(a, white) as usize
        } else {
            0
        },
        castle_permissions: s.castle_permissions,
        en_passant_square: s.en_passant_square,
        hundred_count: s.hundred_count,
        hash: s.zobrist_hash.key,
    }
}

/// What applying `a` to `s0` gives `s1`.
pub open spec fn apply_effect(s0: Chess, a: Action, s1: Chess) -> bool {
    let white = s0.current_player == Player::White;
    &&& s1.wf()
    &&& s1.keys == s0.keys
    &&& forall|i: int| 0 <= i < 12 ==> #[trigger] s1.bb(i) == apply_board(s0.bb(i), i, a, white)
    &&& s1.current_player == s0.current_player.swapped()
    &&& rights_after(s0.castle_permissions, s1.castle_permissions, a)
    &&& s1.en_passant_square == en_passant_after(a)
    &&& s1.hundred_count == if a.is_capture || is_pawn(a.moving_piece) {
        0
    } else {
        s0.hundred_count + 1
    }
    &&& s1.history@ == s0.history@.push(record_of(s0, a))
}

/// What undoing the last applied move of `s1` gives `s2`.
pub open spec fn undo_effect(s1: Chess, s2: Chess) -> bool {
    let rec = s1.history@.last();
    &&& s2.structural()
    &&& s2.keys == s1.keys
    &&& forall|i: int| 0 <= i < 12 ==> #[trigger] s2.bb(i) == undo_board(s1.bb(i), i, rec)
    &&& s2.masks_ok()
    &&& s2.current_player == s1.current_player.swapped()
    &&& s2.castle_permissions == rec.castle_permissions
    &&& s2.en_passant_square == rec.en_passant_square
    &&& s2.hundred_count == rec.hundred_count
    &&& s2.zobrist_hash.key == rec.hash
    &&& s2.history@ == s1.history@.drop_last()
}

impl Chess {
    pub open spec fn mover_white(&self) -> bool {
        self.current_player == Player::White
    }

    pub open spec fn own_piece(&self, p: Piece) -> bool {
        if self.mover_white() {
            p.is_white()
        } else {
            p.is_black()
        }
    }

    pub open spec fn enemy_piece(&self, p: Piece) -> bool {
        if self.mover_white() {
            p.is_black()
        } else {
            p.is_white()
        }
    }

    /// Whether `a` fits the position: the moving piece is the mover's and
    /// stands on `from`; a capture finds the enemy piece it names; a quiet
    /// move lands on an empty square; castling finds its king and rook and
    /// empty landing squares; a promotion turns a pawn into a knight, bishop,
    /// rook or queen of its color.
    pub open spec fn action_ok(&self, a: Action) -> bool {
        let white = self.mover_white();
        let mi = piece_index(a.moving_piece) as int;
        &&& representable(a)
        &&& a.from != a.to
        &&& self.own_piece(a.moving_piece)
        &&& bit_at(self.bb(mi), a.from as int)
        &&& if a.is_castling {
            let (ri, rf, rt) = castle_rook(a.to as int);
            &&& ((a.to == 6 || a.to == 2) && a.from == 4 && a.moving_piece == Piece::Wk) || ((a.to
                == 62 || a.to == 58) && a.from == 60 && a.moving_piece == Piece::Bk)
            &&& bit_at(self.bb(ri), rf)
            &&& !self.occupied(a.to as int)
            &&& !self.occupied(rt)
            &&& !a.is_capture && !a.is_en_passant && !a.is_promotion
        } else {
            &&& a.is_en_passant ==> a.is_capture && is_pawn(a.moving_piece)
                && self.en_passant_square == Some(a.to) && 0 <= capture_square(a, white) < 64
                && !self.occupied(a.to as int)
            &&& a.is_capture ==> self.enemy_piece(captured_of(a, white)) && bit_at(
                self.bb(piece_index(captured_of(a, white)) as int),
                capture_square(a, white),
            )
            &&& !a.is_capture ==> !self.occupied(a.to as int)
            &&& a.is_promotion ==> is_pawn(a.moving_piece) && self.own_piece(a.promoted_to) && 2
                <= piece_index(a.promoted_to) < 10
        }
    }

    /// Moves `piece` from `from` to the empty square `to`.
    fn move_piece(&mut self, piece: Piece, from: Square, to: Square)
        requires
            old(self).wf(),
            piece_index(piece) < 12,
            from < 64,
            to < 64,
            from != to,
            bit_at(old(self).bb(piece_index(piece) as int), from as int),
            !old(self).occupied(to as int),
        ensures
            final(self).wf(),
            old(self).same_rest(final(self)),
            final(self).boards@ == old(self).boards@.update(
                piece_index(piece) as int,
                Bitboard(
                    (old(self).bb(piece_index(piece) as int) & !single(from as int)) | single(
                        to as int,
                    ),
                ),
            ),
    {
        let ghost s0 = *self;
        self.clear_piece(piece, from);
        proof {
            lemma_bits(s0.bb(piece_index(piece) as int), !single(from as int), from as int);
            lemma_bits(single(from as int), 0, from as int);
            assert forall|j: int| 0 <= j < 12 implies !#[trigger] bit_at(self.boards@[j].0, to as int) by {
                assert(!bit_at(s0.boards@[j].0, to as int));
            }
        }
        self.add_piece(piece, to);
    }

    /// Hands the move to the other side, toggling the side key.
    fn switch_side(&mut self)
        requires
            old(self).wf(),
        ensures
            final(self).wf(),
            final(self).current_player == old(self).current_player.swapped(),
            final(self).boards == old(self).boards,
            final(self).white_mask == old(self).white_mask,
            final(self).black_mask == old(self).black_mask,
            final(self).keys == old(self).keys,
            final(self).castle_permissions == old(self).castle_permissions,
            final(self).en_passant_square == old(self).en_passant_square,
            final(self).history@ == old(self).history@,
            final(self).hundred_count == old(self).hundred_count,
    {
        let ghost s0 = *self;
        self.current_player = self.current_player.swap();
        self.zobrist_hash.hash_side(&self.keys);
        proof {
            let (side, castle, ep) = s0.hash_terms();
            let k = self.keys.side_key;
            lemma_xor_facts(board_hash(s0.boards, s0.keys, 64), side, castle, ep, k);
            lemma_xor_facts(k, 0, 0, 0, k);
            assert(self.zobrist_hash.key == self.full_hash());
        }
    }

    /// Clears the en-passant square, toggling its key out.
    fn clear_en_passant(&mut self)
        requires
            old(self).wf(),
        ensures
            final(self).wf(),
            final(self).en_passant_square.is_none(),
            final(self).current_player == old(self).current_player,
            final(self).boards == old(self).boards,
            final(self).white_mask == old(self).white_mask,
            final(self).black_mask == old(self).black_mask,
            final(self).keys == old(self).keys,
            final(self).castle_permissions == old(self).castle_permissions,
            final(self).history@ == old(self).history@,
            final(self).hundred_count == old(self).hundred_count,
    {
        let ghost s0 = *self;
        match self.en_passant_square {
            Some(sq) => {
                self.zobrist_hash.hash_en_passant(&self.keys, sq);
                self.en_passant_square = None;
                proof {
                    let (side, castle, ep) = s0.hash_terms();
                    let k = self.keys.en_passant_key(sq as int);
                    lemma_xor_facts(board_hash(s0.boards, s0.keys, 64), side, castle, ep, k);
                    lemma_xor_facts(k, 0, 0, 0, k);
                    assert(self.zobrist_hash.key == self.full_hash());
                }
            },
            None => {},
        }
    }

    /// Sets the en-passant square, toggling its key in.
    fn set_en_passant(&mut self, sq: Square)
        requires
            old(self).wf(),
            old(self).en_passant_square.is_none(),
            sq < 64,
        ensures
            final(self).wf(),
            final(self).en_passant_square == Some(sq),
            final(self).current_player == old(self).current_player,
            final(self).boards == old(self).boards,
            final(self).white_mask == old(self).white_mask,
            final(self).black_mask == old(self).black_mask,
            final(self).keys == old(self).keys,
            final(self).castle_permissions == old(self).castle_permissions,
            final(self).history@ == old(self).history@,
            final(self).hundred_count == old(self).hundred_count,
    {
        let ghost s0 = *self;
        self.zobrist_hash.hash_en_passant(&self.keys, sq);
        self.en_passant_square = Some(sq);
        proof {
            let (side, castle, ep) = s0.hash_terms();
            let k = self.keys.en_passant_key(sq as int);
            lemma_xor_facts(board_hash(s0.boards, s0.keys, 64), side, castle, ep, k);
            lemma_xor_facts(k, 0, 0, 0, k);
            assert(self.zobrist_hash.key == self.full_hash());
        }
    }

    /// Gives up the castling right `r`, toggling its key out if it was held.
    fn drop_right(&mut self, r: u8)
        requires
            old(self).wf(),
            is_right(r),
        ensures
            final(self).wf(),
            final(self).castle_permissions == old(self).castle_permissions & !r,
            final(self).current_player == old(self).current_player,
            final(self).boards == old(self).boards,
            final(self).white_mask == old(self).white_mask,
            final(self).black_mask == old(self).black_mask,
            final(self).keys == old(self).keys,
            final(self).en_passant_square == old(self).en_passant_square,
            final(self).history@ == old(self).history@,
            final(self).hundred_count == old(self).hundred_count,
    {
        let ghost s0 = *self;
        proof {
            lemma_right_bits(s0.castle_permissions, r, 1);
            lemma_right_bits(s0.castle_permissions, r, 2);
            lemma_right_bits(s0.castle_permissions, r, 4);
            lemma_right_bits(s0.castle_permissions, r, 8);
        }
        if self.castle_permissions & r != 0 {
            self.castle_permissions = self.castle_permissions & !r;
            self.zobrist_hash.hash_cast(&self.keys, r);
            proof {
                let rs = s0.castle_permissions;
                let k = self.keys.castling_key(r as int);
                let t1 = right_term(s0.keys, rs, 1);
                let t2 = right_term(s0.keys, rs, 2);
                let t4 = right_term(s0.keys, rs, 4);
                let t8 = right_term(s0.keys, rs, 8);
                lemma_xor_facts(t1, t2, t4, t8, k);
                lemma_xor_facts(k, 0, 0, 0, k);
                assert(castle_hash(self.keys, self.castle_permissions) == castle_hash(
                    s0.keys,
                    rs,
                ) ^ k);
                let (side, castle, ep) = s0.hash_terms();
                lemma_xor_facts(board_hash(s0.boards, s0.keys, 64), side, castle, ep, k);
                assert(self.zobrist_hash.key == self.full_hash());
            }
        } else {
            proof {
                lemma_rights_ext(s0.castle_permissions, s0.castle_permissions & !r);
            }
        }
    }
}

fn castle_rook_of(to: Square) -> (r: (usize, Square, Square))
    ensures
        r.0 == castle_rook(to as int).0,
        r.1 == castle_rook(to as int).1,
        r.2 == castle_rook(to as int).2,
{
    if to == 6 {
        (6, 7, 5)
    } else if to == 2 {
        (6, 0, 3)
    } else if to == 62 {
        (7, 63, 61)
    } else {
        (7, 56, 59)
    }
}

fn ends_right(r: u8, sq: Square) -> (b: bool)
    ensures
        b == right_square(r, sq as int),
{
    (r == 1 && (sq == 4 || sq == 7)) || (r == 2 && (sq == 4 || sq == 0)) || (r == 4 && (sq == 60
        || sq == 63)) || (r == 8 && (sq == 60 || sq == 56))
}

/// The two color masks of `boards`.
fn color_masks(boards: &[Bitboard; 12]) -> (r: (Bitboard, Bitboard))
    ensures
        masks_match(*boards, r.0, r.1),
{
    let mut w: u64 = 0;
    let mut b: u64 = 0;
    let mut i: usize = 0;
    proof {
        lemma_bits(0, 0, 0);
    }
    while i < 12
        invariant
            i <= 12,
            forall|t: int|
                #[trigger] bit_at(w, t) <==> exists|j: int|
                    0 <= j < i && j % 2 == 0 && #[trigger] bit_at(boards@[j].0, t),
            forall|t: int|
                #[trigger] bit_at(b, t) <==> exists|j: int|
                    0 <= j < i && j % 2 == 1 && #[trigger] bit_at(boards@[j].0, t),
        decreases 12 - i,
    {
        let x = boards[i].0;
        proof {
            lemma_bits(w, x, 0);
            lemma_bits(b, x, 0);
        }
        if i % 2 == 0 {
            proof {
                assert forall|t: int| #[trigger] bit_at(w | x, t) <==> exists|j: int|
                    0 <= j < i + 1 && j % 2 == 0 && #[trigger] bit_at(boards@[j].0, t) by {
                    if bit_at(x, t) {
                        assert(bit_at(boards@[i as int].0, t));
                    }
                    if bit_at(w, t) {
                        let j = choose|j: int| 0 <= j < i && j % 2 == 0 && #[trigger] bit_at(boards@[j].0, t);
                        assert(bit_at(boards@[j].0, t));
                    }
                }
                assert forall|t: int| #[trigger] bit_at(b, t) <==> exists|j: int|
                    0 <= j < i + 1 && j % 2 == 1 && #[trigger] bit_at(boards@[j].0, t) by {
                    if bit_at(b, t) {
                        let j = choose|j: int| 0 <= j < i && j % 2 == 1 && #[trigger] bit_at(boards@[j].0, t);
                        assert(bit_at(boards@[j].0, t));
                    }
                }
            }
            w = w | x;
        } else {
            proof {
                assert forall|t: int| #[trigger] bit_at(b | x, t) <==> exists|j: int|
                    0 <= j < i + 1 && j % 2 == 1 && #[trigger] bit_at(boards@[j].0, t) by {
                    if bit_at(x, t) {
                        assert(bit_at(boards@[i as int].0, t));
                    }
                    if bit_at(b, t) {
                        let j = choose|j: int| 0 <= j < i && j % 2 == 1 && #[trigger] bit_at(boards@[j].0, t);
                        assert(bit_at(boards@[j].0, t));
                    }
                }
                assert forall|t: int| #[trigger] bit_at(w, t) <==> exists|j: int|
                    0 <= j < i + 1 && j % 2 == 0 && #[trigger] bit_at(boards@[j].0, t) by {
                    if bit_at(w, t) {
                        let j = choose|j: int| 0 <= j < i && j % 2 == 0 && #[trigger] bit_at(boards@[j].0, t);
                        assert(bit_at(boards@[j].0, t));
                    }
                }
            }
            b = b | x;
        }
        i = i + 1;
    }
    (Bitboard(w), Bitboard(b))
}

impl Chess {
    /// Gives up each castling right that a king or rook leaving `a.from` or
    /// being taken on `a.to` ends.
    fn drop_rights_for(&mut self, a: Action)
        requires
            old(self).wf(),
        ensures
            final(self).wf(),
            rights_after(old(self).castle_permissions, final(self).castle_permissions, a),
            final(self).current_player == old(self).current_player,
            final(self).boards == old(self).boards,
            final(self).white_mask == old(self).white_mask,
            final(self).black_mask == old(self).black_mask,
            final(self).keys == old(self).keys,
            final(self).en_passant_square == old(self).en_passant_square,
            final(self).history@ == old(self).history@,
            final(self).hundred_count == old(self).hundred_count,
    {
        let ghost r0 = self.castle_permissions;
        if ends_right(1, a.from) || ends_right(1, a.to) {
            self.drop_right(1);
        }
        let ghost r1 = self.castle_permissions;
        if ends_right(2, a.from) || ends_right(2, a.to) {
            self.drop_right(2);
        }
        let ghost r2 = self.castle_permissions;
        if ends_right(4, a.from) || ends_right(4, a.to) {
            self.drop_right(4);
        }
        let ghost r3 = self.castle_permissions;
        if ends_right(8, a.from) || ends_right(8, a.to) {
            self.drop_right(8);
        }
        proof {
            let r4 = self.castle_permissions;
            lemma_right_bits(r0, 1, 1);
            lemma_right_bits(r0, 1, 2);
            lemma_right_bits(r0, 1, 4);
            lemma_right_bits(r0, 1, 8);
            lemma_right_bits(r1, 2, 1);
            lemma_right_bits(r1, 2, 2);
            lemma_right_bits(r1, 2, 4);
            lemma_right_bits(r1, 2, 8);
            lemma_right_bits(r2, 4, 1);
            lemma_right_bits(r2, 4, 2);
            lemma_right_bits(r2, 4, 4);
            lemma_right_bits(r2, 4, 8);
            lemma_right_bits(r3, 8, 1);
            lemma_right_bits(r3, 8, 2);
            lemma_right_bits(r3, 8, 4);
            lemma_right_bits(r3, 8, 8);
            assert forall|r: u8| is_right(r) implies ((#[trigger] (r4 & r) != 0) <==> (r0 & r != 0
                && !right_lost(a, r))) by {
                if r == 1 {
                } else if r == 2 {
                } else if r == 4 {
                } else {
                }
            }
        }
    }

    /// Applies `a` in place, pushing what undoing it needs.
    pub fn apply(&mut self, a: Action)
        requires
            old(self).wf(),
            old(self).action_ok(a),
            old(self).hundred_count < usize::MAX,
        ensures
            apply_effect(*old(self), a, *final(self)),
    {
        let ghost s0 = *self;
        let white = match self.current_player {
            Player::White => true,
            _ => false,
        };
        let captured = if !a.is_capture {
            Piece::Empty
        } else if a.is_en_passant {
            if white {
                Piece::Bp
            } else {
                Piece::Wp
            }
        } else {
            a.captured_piece
        };
        let captured_sq: Square = if a.is_capture {
            if a.is_en_passant {
                if white {
                    a.to - 8
                } else {
                    a.to + 8
                }
            } else {
                a.to
            }
        } else {
            0
        };
        let rec = UndoRecord {
            action: a,
            captured,
            captured_sq,
            castle_permissions: self.castle_permissions,
            en_passant_square: self.en_passant_square,
            hundred_count: self.hundred_count,
            hash: self.zobrist_hash.key,
        };
        assert(rec == record_of(s0, a));
        self.history.push(rec);
        proof {
            assert forall|k: int| 0 <= k < self.history@.len() implies record_ok(
                #[trigger] self.history@[k],
            ) by {
                if k < s0.history@.len() {
                    assert(self.history@[k] == s0.history@[k]);
                }
            }
        }
        self.switch_side();
        self.clear_en_passant();
        self.drop_rights_for(a);
        let ghost s1 = *self;
        if a.is_castling {
            let (ri, rf, rt) = castle_rook_of(a.to);
            self.move_piece(a.moving_piece, a.from, a.to);
            let rook = if ri == 6 {
                Piece::Wr
            } else {
                Piece::Br
            };
            proof {
                lemma_bits(s1.bb(piece_index(a.moving_piece) as int), !single(a.from as int), a.from as int);
                lemma_bits(single(a.from as int), 0, a.from as int);
                lemma_bits(s1.bb(piece_index(a.moving_piece) as int) & !single(a.from as int), single(a.to as int), a.to as int);
                assert(bit_at(self.bb(ri as int), rf as int));
                assert forall|j: int| 0 <= j < 12 implies !#[trigger] bit_at(self.boards@[j].0, rt as int) by {
                    assert(!bit_at(s1.boards@[j].0, rt as int));
                }
            }
            self.move_piece(rook, rf, rt);
        } else {
            if a.is_capture {
                self.clear_piece(captured, captured_sq);
            }
            let ghost s2 = *self;
            proof {
                let ci = piece_index(captured) as int;
                if a.is_capture {
                    lemma_bits(s1.bb(ci), !single(captured_sq as int), captured_sq as int);
                    assert forall|j: int| 0 <= j < 12 implies !#[trigger] bit_at(self.boards@[j].0, a.to as int) by {
                        if !a.is_en_passant {
                            if j != ci {
                                assert(!bit_at(s1.boards@[j].0, a.to as int));
                            }
                        } else {
                            assert(!bit_at(s1.boards@[j].0, a.to as int));
                        }
                    }
                }
                assert(bit_at(self.bb(piece_index(a.moving_piece) as int), a.from as int));
            }
            self.move_piece(a.moving_piece, a.from, a.to);
            if a.is_promotion {
                proof {
                    let mi = piece_index(a.moving_piece) as int;
                    lemma_bits(s2.bb(mi) & !single(a.from as int), single(a.to as int), a.to as int);
                }
                self.clear_piece(a.moving_piece, a.to);
                self.add_piece(a.promoted_to, a.to);
            }
        }
        if a.moving_piece == Piece::Wp && a.from + 16 == a.to {
            self.set_en_passant(a.from + 8);
        } else if a.moving_piece == Piece::Bp && a.to + 16 == a.from {
            self.set_en_passant(a.to + 8);
        }
        if a.is_capture || a.moving_piece == Piece::Wp || a.moving_piece == Piece::Bp {
            self.hundred_count = 0;
        } else {
            self.hundred_count = self.hundred_count + 1;
        }
        proof {
            let mi = piece_index(a.moving_piece) as int;
            assert forall|i: int| 0 <= i < 12 implies #[trigger] self.bb(i) == apply_board(
                s0.bb(i),
                i,
                a,
                white,
            ) by {
                if !a.is_castling && a.is_promotion && i == mi {
                    assert(!bit_at(s0.bb(mi), a.to as int));
                    lemma_move_back(s0.bb(mi), a.from as u64, a.to as u64);
                }
            }
        }
    }
}

impl Chess {
    /// Undoes the last applied move, restoring what it changed.
    pub fn undo(&mut self)
        requires
            old(self).structural(),
            old(self).history@.len() > 0,
        ensures
            undo_effect(*old(self), *final(self)),
    {
        let ghost s1 = *self;
        let rec = self.history.pop().unwrap();
        proof {
            assert(record_ok(s1.history@[s1.history@.len() - 1]));
        }
        let a = rec.action;
        let mi = a.moving_piece.index();
        if a.is_castling {
            let (ri, rf, rt) = castle_rook_of(a.to);
            let mut k = self.boards[mi];
            k.clear_bit(a.to);
            k.set_bit(a.from);
            self.boards[mi] = k;
            let mut r = self.boards[ri];
            r.clear_bit(rt);
            r.set_bit(rf);
            self.boards[ri] = r;
        } else {
            if a.is_promotion {
                let pi = a.promoted_to.index();
                let mut p = self.boards[pi];
                p.clear_bit(a.to);
                self.boards[pi] = p;
                let mut m = self.boards[mi];
                m.set_bit(a.from);
                self.boards[mi] = m;
            } else {
                let mut m = self.boards[mi];
                m.clear_bit(a.to);
                m.set_bit(a.from);
                self.boards[mi] = m;
            }
            if a.is_capture {
                let ci = rec.captured.index();
                let mut c = self.boards[ci];
                c.set_bit(rec.captured_sq);
                self.boards[ci] = c;
            }
        }
        let (w, b) = color_masks(&self.boards);
        self.white_mask = w;
        self.black_mask = b;
        self.current_player = self.current_player.swap();
        self.castle_permissions = rec.castle_permissions;
        self.en_passant_square = rec.en_passant_square;
        self.hundred_count = rec.hundred_count;
        self.zobrist_hash = ZobristHash { key: rec.hash };
        proof {
            assert forall|k: int| 0 <= k < self.history@.len() implies record_ok(
                #[trigger] self.history@[k],
            ) by {
                assert(self.history@[k] == s1.history@[k]);
            }
        }
    }

    /// Whether every field of the two positions is the same.
    pub open spec fn same_position(&self, o: &Chess) -> bool {
        &&& self.keys == o.keys
        &&& self.boards@ == o.boards@
        &&& self.white_mask == o.white_mask
        &&& self.black_mask == o.black_mask
        &&& self.current_player == o.current_player
        &&& self.castle_permissions == o.castle_permissions
        &&& self.en_passant_square == o.en_passant_square
        &&& self.hundred_count == o.hundred_count
        &&& self.zobrist_hash == o.zobrist_hash
        &&& self.history@ == o.history@
    }
}

proof fn lemma_masks_equal(x: Chess, y: Chess)
    requires
        x.masks_ok(),
        y.masks_ok(),
        forall|i: int| 0 <= i < 12 ==> #[trigger] x.bb(i) == y.bb(i),
    ensures
        x.white_mask == y.white_mask,
        x.black_mask == y.black_mask,
{
    assert forall|t: int| 0 <= t < 64 implies #[trigger] bit_at(x.white_mask.0, t) == bit_at(
        y.white_mask.0,
        t,
    ) by {
        if bit_at(x.white_mask.0, t) {
            let j = choose|j: int| 0 <= j < 12 && j % 2 == 0 && #[trigger] bit_at(x.boards@[j].0, t);
            assert(x.bb(j) == y.bb(j));
            assert(bit_at(y.boards@[j].0, t));
        }
        if bit_at(y.white_mask.0, t) {
            let j = choose|j: int| 0 <= j < 12 && j % 2 == 0 && #[trigger] bit_at(y.boards@[j].0, t);
            assert(x.bb(j) == y.bb(j));
            assert(bit_at(x.boards@[j].0, t));
        }
    }
    assert forall|t: int| 0 <= t < 64 implies #[trigger] bit_at(x.black_mask.0, t) == bit_at(
        y.black_mask.0,
        t,
    ) by {
        if bit_at(x.black_mask.0, t) {
            let j = choose|j: int| 0 <= j < 12 && j % 2 == 1 && #[trigger] bit_at(x.boards@[j].0, t);
            assert(x.bb(j) == y.bb(j));
            assert(bit_at(y.boards@[j].0, t));
        }
        if bit_at(y.black_mask.0, t) {
            let j = choose|j: int| 0 <= j < 12 && j % 2 == 1 && #[trigger] bit_at(y.boards@[j].0, t);
            assert(x.bb(j) == y.bb(j));
            assert(bit_at(x.boards@[j].0, t));
        }
    }
    lemma_bits_ext(x.white_mask.0, y.white_mask.0);
    lemma_bits_ext(x.black_mask.0, y.black_mask.0);
}

/// Undoing a move just applied gives back the position exactly: every
/// board, both masks, the side to move, the castling rights, the en-passant
/// square, the fifty-move count, the hash and the undo stack. The position
/// is then again well formed, its hash equal to its recomputation.
pub proof fn lemma_undo_restores(s0: Chess, a: Action, s1: Chess, s2: Chess)
    requires
        s0.wf(),
        s0.action_ok(a),
        apply_effect(s0, a, s1),
        undo_effect(s1, s2),
    ensures
        s2.same_position(&s0),
        s2.wf(),
{
    let white = s0.mover_white();
    let rec = record_of(s0, a);
    assert(s1.history@.last() == rec);
    let mi = piece_index(a.moving_piece) as int;
    let f = a.from as int;
    let t = a.to as int;
    assert forall|i: int| 0 <= i < 12 implies #[trigger] s2.bb(i) == s0.bb(i) by {
        let b = s0.bb(i);
        assert(s1.bb(i) == apply_board(b, i, a, white));
        assert(s2.bb(i) == undo_board(s1.bb(i), i, rec));
        if a.is_castling {
            let (ri, rf, rt) = castle_rook(t);
            if i == mi {
                assert(!bit_at(s0.boards@[i].0, t));
                lemma_move_back(b, f as u64, t as u64);
            } else if i == ri {
                assert(!bit_at(s0.boards@[i].0, rt));
                lemma_move_back(b, rf as u64, rt as u64);
            }
        } else {
            let ci = piece_index(captured_of(a, white)) as int;
            let cs = capture_square(a, white);
            let pi = piece_index(a.promoted_to) as int;
            if a.is_capture && !a.is_en_passant && i != ci {
                assert(bit_at(s0.boards@[ci].0, t));
                assert(!bit_at(s0.boards@[i].0, t));
            }
            if !a.is_capture || a.is_en_passant {
                assert(!bit_at(s0.boards@[i].0, t));
            }
            if a.is_promotion && i == pi {
                lemma_unset_set(b, t as u64);
            } else if i == mi {
                if a.is_promotion {
                    lemma_set_unset(b, f as u64);
                } else {
                    lemma_move_back(b, f as u64, t as u64);
                }
            } else if a.is_capture && i == ci {
                lemma_set_unset(b, cs as u64);
            }
        }
    }
    lemma_masks_equal(s2, s0);
    broadcast use vstd::array::group_array_axioms;
    assert forall|i: int| 0 <= i < s0.boards@.len() implies s2.boards@[i] == s0.boards@[i] by {
        assert(s2.bb(i) == s0.bb(i));
    }
    assert(s2.boards@ =~= s0.boards@);
    assert(s2.boards == s0.boards);
    assert(s2.history@ =~= s0.history@);
}

/// The squares of piece index `i` in the standard starting position.
pub open spec fn start_square(i: int, t: int) -> bool {
    if i == 0 {
        8 <= t < 16
    } else if i == 1 {
        48 <= t < 56
    } else if i == 2 {
        t == 1 || t == 6
    } else if i == 3 {
        t == 57 || t == 62
    } else if i == 4 {
        t == 2 || t == 5
    } else if i == 5 {
        t == 58 || t == 61
    } else if i == 6 {
        t == 0 || t == 7
    } else if i == 7 {
        t == 56 || t == 63
    } else if i == 8 {
        t == 3
    } else if i == 9 {
        t == 59
    } else if i == 10 {
        t == 4
    } else {
        t == 60
    }
}

proof fn lemma_start_bits(t: u64)
    by (bit_vector)
    requires
        t < 64,
    ensures
        (0xFF00u64 >> t) & 1 == 1 <==> 8 <= t < 16,
        (0x00FF_0000_0000_0000u64 >> t) & 1 == 1 <==> 48 <= t < 56,
        (0x42u64 >> t) & 1 == 1 <==> (t == 1 || t == 6),
        (0x4200_0000_0000_0000u64 >> t) & 1 == 1 <==> (t == 57 || t == 62),
        (0x24u64 >> t) & 1 == 1 <==> (t == 2 || t == 5),
        (0x2400_0000_0000_0000u64 >> t) & 1 == 1 <==> (t == 58 || t == 61),
        (0x81u64 >> t) & 1 == 1 <==> (t == 0 || t == 7),
        (0x8100_0000_0000_0000u64 >> t) & 1 == 1 <==> (t == 56 || t == 63),
        (0x08u64 >> t) & 1 == 1 <==> t == 3,
        (0x0800_0000_0000_0000u64 >> t) & 1 == 1 <==> t == 59,
        (0x10u64 >> t) & 1 == 1 <==> t == 4,
        (0x1000_0000_0000_0000u64 >> t) & 1 == 1 <==> t == 60,
        (0xFFFFu64 >> t) & 1 == 1 <==> t < 16,
        (0xFFFF_0000_0000_0000u64 >> t) & 1 == 1 <==> 48 <= t,
{
}

impl Chess {
    /// The running hash recomputed from the boards, the side to move, the
    /// castling rights and the en-passant square.
    pub fn compute_hash(&self) -> (r: u64)
        requires
            self.structural(),
        ensures
            r == self.full_hash(),
    {
        let mut h: u64 = 0;
        let mut sq: usize = 0;
        while sq < 64
            invariant
                sq <= 64,
                self.structural(),
                h == board_hash(self.boards, self.keys, sq as int),
            decreases 64 - sq,
        {
            let mut sh: u64 = 0;
            let mut k: usize = 0;
            while k < 12
                invariant
                    k <= 12,
                    sq < 64,
                    self.structural(),
                    sh == square_hash(self.boards, self.keys, sq as int, k as int),
                decreases 12 - k,
            {
                proof {
                    lemma_xor_facts(sh, 0, 0, 0, 0);
                }
                if self.boards[k].has_entry_at(sq) {
                    sh = sh ^ self.keys.piece_keys[sq * 12 + k];
                }
                k = k + 1;
            }
            h = h ^ sh;
            sq = sq + 1;
        }
        let side: u64 = match self.current_player {
            Player::Black => self.keys.side_key,
            _ => 0,
        };
        let rights = self.castle_permissions;
        let t1: u64 = if rights & 1 != 0 {
            self.keys.castling_keys[1]
        } else {
            0
        };
        let t2: u64 = if rights & 2 != 0 {
            self.keys.castling_keys[2]
        } else {
            0
        };
        let t4: u64 = if rights & 4 != 0 {
            self.keys.castling_keys[4]
        } else {
            0
        };
        let t8: u64 = if rights & 8 != 0 {
            self.keys.castling_keys[8]
        } else {
            0
        };
        let ep: u64 = match self.en_passant_square {
            Some(s) => self.keys.en_passant_keys[s],
            None => 0,
        };
        ((h ^ side) ^ (((t1 ^ t2) ^ t4) ^ t8)) ^ ep
    }

    /// The standard starting position, white to move, all four castling
    /// rights held, hashed with `keys`.
    pub fn new(keys: HashKeys) -> (r: Chess)
        requires
            keys.wf(),
        ensures
            r.wf(),
            r.keys == keys,
            r.current_player == Player::White,
            forall|i: int, t: int|
                0 <= i < 12 && 0 <= t < 64 ==> (#[trigger] bit_at(r.bb(i), t) <==> start_square(i, t)),
            r.castle_permissions == 15,
            r.en_passant_square.is_none(),
            r.hundred_count == 0,
            r.history@.len() == 0,
    {
        let boards: [Bitboard; 12] = [
            Bitboard(0xFF00),
            Bitboard(0x00FF_0000_0000_0000),
            Bitboard(0x42),
            Bitboard(0x4200_0000_0000_0000),
            Bitboard(0x24),
            Bitboard(0x2400_0000_0000_0000),
            Bitboard(0x81),
            Bitboard(0x8100_0000_0000_0000),
            Bitboard(0x08),
            Bitboard(0x0800_0000_0000_0000),
            Bitboard(0x10),
            Bitboard(0x1000_0000_0000_0000),
        ];
        let mut c = Chess {
            keys,
            current_player: Player::White,
            boards,
            white_mask: Bitboard(0xFFFF),
            black_mask: Bitboard(0xFFFF_0000_0000_0000),
            castle_permissions: 15,
            en_passant_square: None,
            zobrist_hash: ZobristHash { key: 0 },
            history: Vec::new(),
            hundred_count: 0,
        };
        let h = c.compute_hash();
        c.zobrist_hash = ZobristHash { key: h };
        proof {
            assert forall|i: int, t: int|
                0 <= i < 12 && 0 <= t < 64 implies (#[trigger] bit_at(c.bb(i), t) <==> start_square(i, t)) by {
                lemma_start_bits(t as u64);
            }
            assert forall|t: int| #[trigger] bit_at(c.white_mask.0, t) <==> exists|j: int|
                0 <= j < 12 && j % 2 == 0 && #[trigger] bit_at(c.boards@[j].0, t) by {
                if 0 <= t < 64 {
                    lemma_start_bits(t as u64);
                    if exists|j: int| 0 <= j < 12 && j % 2 == 0 && #[trigger] bit_at(c.boards@[j].0, t) {
                        let j = choose|j: int| 0 <= j < 12 && j % 2 == 0 && #[trigger] bit_at(c.boards@[j].0, t);
                        assert(start_square(j, t));
                    }
                    if t < 16 {
                        if 8 <= t {
                            assert(bit_at(c.boards@[0].0, t));
                        } else if t == 1 || t == 6 {
                            assert(bit_at(c.boards@[2].0, t));
                        } else if t == 2 || t == 5 {
                            assert(bit_at(c.boards@[4].0, t));
                        } else if t == 0 || t == 7 {
                            assert(bit_at(c.boards@[6].0, t));
                        } else if t == 3 {
                            assert(bit_at(c.boards@[8].0, t));
                        } else {
                            assert(bit_at(c.boards@[10].0, t));
                        }
                    }
                }
            }
            assert forall|t: int| #[trigger] bit_at(c.black_mask.0, t) <==> exists|j: int|
                0 <= j < 12 && j % 2 == 1 && #[trigger] bit_at(c.boards@[j].0, t) by {
                if 0 <= t < 64 {
                    lemma_start_bits(t as u64);
                    if exists|j: int| 0 <= j < 12 && j % 2 == 1 && #[trigger] bit_at(c.boards@[j].0, t) {
                        let j = choose|j: int| 0 <= j < 12 && j % 2 == 1 && #[trigger] bit_at(c.boards@[j].0, t);
                        assert(start_square(j, t));
                    }
                    if 48 <= t {
                        if t < 56 {
                            assert(bit_at(c.boards@[1].0, t));
                        } else if t == 57 || t == 62 {
                            assert(bit_at(c.boards@[3].0, t));
                        } else if t == 58 || t == 61 {
                            assert(bit_at(c.boards@[5].0, t));
                        } else if t == 56 || t == 63 {
                            assert(bit_at(c.boards@[7].0, t));
                        } else if t == 59 {
                            assert(bit_at(c.boards@[9].0, t));
                        } else {
                            assert(bit_at(c.boards@[11].0, t));
                        }
                    }
                }
            }
            assert forall|i: int, j: int, t: int|
                0 <= i < 12 && 0 <= j < 12 && i != j && #[trigger] bit_at(c.boards@[i].0, t)
                    implies !#[trigger] bit_at(c.boards@[j].0, t) by {
                lemma_start_bits(t as u64);
                assert(start_square(i, t));
                if bit_at(c.boards@[j].0, t) {
                    assert(start_square(j, t));
                }
            }
        }
        c
    }

    /// Applies the move whose code is `action`.
    pub fn step(&mut self, action: usize)
        requires
            old(self).wf(),
            is_code(action as nat),
            old(self).action_ok(decode(action as nat)),
            old(self).hundred_count < usize::MAX,
        ensures
            apply_effect(*old(self), decode(action as nat), *final(self)),
    {
        let a = Action::from_usize(action);
        self.apply(a);
    }
}

/// The twelve boards of a decoded description, indexed as `Piece`.
pub open spec fn info_boards(info: Info) -> Seq<u64> {
    seq![
        info.w_pawns.0,
        info.b_pawns.0,
        info.w_knights.0,
        info.b_knights.0,
        info.w_bishops.0,
        info.b_bishops.0,
        info.w_rooks.0,
        info.b_rooks.0,
        info.w_queens.0,
        info.b_queens.0,
        info.w_kings.0,
        info.b_kings.0,
    ]
}

/// The castling rights of a decoded description, one bit each.
pub open spec fn info_rights(info: Info) -> u8 {
    ((if info.short_white_rights { 1u8 } else { 0u8 }) + (if info.long_white_rights { 2u8 } else { 0u8 })
        + (if info.short_black_rights { 4u8 } else { 0u8 }) + (if info.long_black_rights { 8u8 } else { 0u8 })) as u8
}

/// No square is on two of the boards.
pub open spec fn boards_disjoint_seq(b: Seq<u64>) -> bool {
    forall|i: int, j: int, sq: int|
        0 <= i < 12 && 0 <= j < 12 && i != j && #[trigger] bit_at(b[i], sq) ==> !#[trigger] bit_at(b[j], sq)
}

proof fn lemma_and_zero(a: u64, b: u64)
    ensures
        (a & b == 0) <==> forall|t: int| 0 <= t < 64 ==> !(#[trigger] bit_at(a, t) && bit_at(b, t)),
{
    lemma_bits(a, b, 0);
    lemma_bits(0, 0, 0);
    if forall|t: int| 0 <= t < 64 ==> !(#[trigger] bit_at(a, t) && bit_at(b, t)) {
        assert forall|t: int| 0 <= t < 64 implies #[trigger] bit_at(a & b, t) == bit_at(0u64, t) by {
        }
        lemma_bits_ext(a & b, 0);
    }
    if a & b == 0 {
        assert forall|t: int| 0 <= t < 64 implies !(#[trigger] bit_at(a, t) && bit_at(b, t)) by {
            assert(bit_at(a & b, t) == (bit_at(a, t) && bit_at(b, t)));
        }
    }
}

impl Chess {
    /// The position a decoded description gives, hashed with `keys`; `None`
    /// when a square is on two boards or the en-passant square is off the
    /// board.
    pub fn from_info(info: &Info, keys: HashKeys) -> (r: Option<Chess>)
        requires
            keys.wf(),
        ensures
            r.is_some() <==> (boards_disjoint_seq(info_boards(*info)) && (info.en_passant_sq matches Some(
                sq,
            ) ==> sq < 64)),
            r matches Some(c) ==> {
                &&& c.wf()
                &&& c.keys == keys
                &&& forall|i: int| 0 <= i < 12 ==> #[trigger] c.bb(i) == info_boards(*info)[i]
                &&& c.current_player == if info.white {
                    Player::White
                } else {
                    Player::Black
                }
                &&& c.castle_permissions == info_rights(*info)
                &&& c.en_passant_square == info.en_passant_sq
                &&& c.hundred_count == info.fifty_count
                &&& c.history@.len() == 0
            },
    {
        let boards: [Bitboard; 12] = [
            info.w_pawns,
            info.b_pawns,
            info.w_knights,
            info.b_knights,
            info.w_bishops,
            info.b_bishops,
            info.w_rooks,
            info.b_rooks,
            info.w_queens,
            info.b_queens,
            info.w_kings,
            info.b_kings,
        ];
        let ghost ib = info_boards(*info);
        assert forall|i: int| 0 <= i < 12 implies #[trigger] boards@[i].0 == ib[i] by {
        }
        let mut i: usize = 0;
        while i < 12
            invariant
                i <= 12,
                ib == info_boards(*info),
                forall|i: int| 0 <= i < 12 ==> #[trigger] boards@[i].0 == ib[i],
                forall|a: int, b: int| 0 <= b < a < i ==> (#[trigger] ib[a] & #[trigger] ib[b]) == 0,
            decreases 12 - i,
        {
            let mut j: usize = 0;
            while j < i
                invariant
                    i < 12,
                    j <= i,
                    ib == info_boards(*info),
                    forall|i: int| 0 <= i < 12 ==> #[trigger] boards@[i].0 == ib[i],
                    forall|a: int, b: int| 0 <= b < a < i ==> (#[trigger] ib[a] & #[trigger] ib[b]) == 0,
                    forall|b: int| 0 <= b < j ==> (ib[i as int] & #[trigger] ib[b]) == 0,
                decreases i - j,
            {
                if boards[i].0 & boards[j].0 != 0 {
                    proof {
                        lemma_and_zero(ib[i as int], ib[j as int]);
                        let t = choose|t: int| 0 <= t < 64 && (#[trigger] bit_at(ib[i as int], t) && bit_at(ib[j as int], t));
                        assert(bit_at(ib[i as int], t) && bit_at(ib[j as int], t));
                        assert(!boards_disjoint_seq(ib));
                    }
                    return None;
                }
                j = j + 1;
            }
            i = i + 1;
        }
        let ep_ok = match info.en_passant_sq {
            Some(sq) => sq < 64,
            None => true,
        };
        if !ep_ok {
            return None;
        }
        proof {
            assert forall|a: int, b: int, t: int|
                0 <= a < 12 && 0 <= b < 12 && a != b && #[trigger] bit_at(ib[a], t) implies !#[trigger] bit_at(ib[b], t) by {
                if a > b {
                    lemma_and_zero(ib[a], ib[b]);
                } else {
                    lemma_and_zero(ib[b], ib[a]);
                }
                if !(0 <= t < 64) {
                    assert(!bit_at(ib[a], t));
                }
            }
        }
        let (white_mask, black_mask) = color_masks(&boards);
        let rights: u8 = (if info.short_white_rights { 1u8 } else { 0u8 }) + (if info.long_white_rights { 2u8 } else { 0u8 })
            + (if info.short_black_rights { 4u8 } else { 0u8 }) + (if info.long_black_rights { 8u8 } else { 0u8 });
        let mut c = Chess {
            keys,
            current_player: if info.white {
                Player::White
            } else {
                Player::Black
            },
            boards,
            white_mask,
            black_mask,
            castle_permissions: rights,
            en_passant_square: info.en_passant_sq,
            zobrist_hash: ZobristHash { key: 0 },
            history: Vec::new(),
            hundred_count: info.fifty_count,
        };
        let h = c.compute_hash();
        c.zobrist_hash = ZobristHash { key: h };
        Some(c)
    }
}

proof fn lemma_undo_effect_same(x: Chess, x2: Chess, y: Chess)
    requires
        x2.same_position(&x),
        undo_effect(x2, y),
    ensures
        undo_effect(x, y),
{
    assert forall|i: int| 0 <= i < 12 implies #[trigger] x.bb(i) == x2.bb(i) by {
    }
}

/// Applying a sequence of moves and then undoing them all, the last first,
/// passes back through every position on the way and ends on the first one,
/// field for field.
pub proof fn lemma_undo_sequence(states: Seq<Chess>, acts: Seq<Action>, back: Seq<Chess>)
    requires
        states.len() == acts.len() + 1,
        back.len() == states.len(),
        states[0].wf(),
        forall|i: int| 0 <= i < acts.len() ==> states[i].action_ok(#[trigger] acts[i]),
        forall|i: int| 0 <= i < acts.len() ==> apply_effect(states[i], #[trigger] acts[i], states[i + 1]),
        back[0] == states[acts.len() as int],
        forall|i: int| 0 <= i < acts.len() ==> undo_effect(#[trigger] back[i], back[i + 1]),
    ensures
        forall|i: int| 0 <= i < back.len() ==> (#[trigger] back[i]).same_position(&states[acts.len() - i]),
{
    let n = acts.len() as int;
    assert forall|i: int| 0 <= i <= n implies #[trigger] states[i].wf() by {
        if i > 0 {
            assert(apply_effect(states[i - 1], acts[i - 1], states[i]));
        }
    }
    lemma_undo_sequence_from(states, acts, back, n);
}

proof fn lemma_undo_sequence_from(states: Seq<Chess>, acts: Seq<Action>, back: Seq<Chess>, i: int)
    requires
        states.len() == acts.len() + 1,
        back.len() == states.len(),
        0 <= i <= acts.len(),
        forall|j: int| 0 <= j <= acts.len() ==> #[trigger] states[j].wf(),
        forall|j: int| 0 <= j < acts.len() ==> states[j].action_ok(#[trigger] acts[j]),
        forall|j: int| 0 <= j < acts.len() ==> apply_effect(states[j], #[trigger] acts[j], states[j + 1]),
        back[0] == states[acts.len() as int],
        forall|j: int| 0 <= j < acts.len() ==> undo_effect(#[trigger] back[j], back[j + 1]),
    ensures
        forall|j: int| 0 <= j <= i ==> (#[trigger] back[j]).same_position(&states[acts.len() - j]),
    decreases i,
{
    let n = acts.len() as int;
    if i == 0 {
        assert(back[0].history@ =~= states[n].history@);
    } else {
        lemma_undo_sequence_from(states, acts, back, i - 1);
        let k = n - i;
        assert(back[i - 1].same_position(&states[k + 1]));
        assert(undo_effect(back[i - 1], back[i]));
        lemma_undo_effect_same(states[k + 1], back[i - 1], back[i]);
        assert(states[k].action_ok(acts[k]));
        assert(apply_effect(states[k], acts[k], states[k + 1]));
        lemma_undo_restores(states[k], acts[k], states[k + 1], back[i]);
    }
}

} // verus!
