use vstd::prelude::*;
use vstd::arithmetic::div_mod::lemma_fundamental_div_mod_converse;

verus! {

/// A square index, `file + 8 * rank`, with a1 = 0 and h8 = 63.
pub type Square = usize;

/// The twelve pieces, color by kind, and the empty marker.
#[derive(Clone, Copy, PartialEq, Eq, Structural, Debug)]
pub enum Piece {
    Wp,
    Bp,
    Wkn,
    Bkn,
    Wb,
    Bb,
    Wr,
    Br,
    Wq,
    Bq,
    Wk,
    Bk,
    Empty,
}

/// The index of a piece: 0 to 11 for the pieces, 12 for the empty marker.
pub open spec fn piece_index(p: Piece) -> nat {
    match p {
        Piece::Wp => 0,
        Piece::Bp => 1,
        Piece::Wkn => 2,
        Piece::Bkn => 3,
        Piece::Wb => 4,
        Piece::Bb => 5,
        Piece::Wr => 6,
        Piece::Br => 7,
        Piece::Wq => 8,
        Piece::Bq => 9,
        Piece::Wk => 10,
        Piece::Bk => 11,
        Piece::Empty => 12,
    }
}

/// The piece of index `i`, for `i <= 12`.
pub open spec fn piece_of_index(i: nat) -> Piece {
    if i == 0 {
        Piece::Wp
    } else if i == 1 {
        Piece::Bp
    } else if i == 2 {
        Piece::Wkn
    } else if i == 3 {
        Piece::Bkn
    } else if i == 4 {
        Piece::Wb
    } else if i == 5 {
        Piece::Bb
    } else if i == 6 {
        Piece::Wr
    } else if i == 7 {
        Piece::Br
    } else if i == 8 {
        Piece::Wq
    } else if i == 9 {
        Piece::Bq
    } else if i == 10 {
        Piece::Wk
    } else if i == 11 {
        Piece::Bk
    } else {
        Piece::Empty
    }
}

impl Piece {
    pub open spec fn is_white(self) -> bool {
        piece_index(self) < 12 && piece_index(self) % 2 == 0
    }

    pub open spec fn is_black(self) -> bool {
        piece_index(self) < 12 && piece_index(self) % 2 == 1
    }

    pub fn index(self) -> (r: usize)
        ensures
            r == piece_index(self),
    {
        match self {
            Piece::Wp => 0,
            Piece::Bp => 1,
            Piece::Wkn => 2,
            Piece::Bkn => 3,
            Piece::Wb => 4,
            Piece::Bb => 5,
            Piece::Wr => 6,
            Piece::Br => 7,
            Piece::Wq => 8,
            Piece::Bq => 9,
            Piece::Wk => 10,
            Piece::Bk => 11,
            Piece::Empty => 12,
        }
    }

    /// The piece of index `v`; `None` (no piece at all) above 12.
    pub fn try_from(v: usize) -> (r: Option<Piece>)
        ensures
            v <= 12 ==> r == Some(piece_of_index(v as nat)),
            v > 12 ==> r.is_none(),
    {
        match v {
            0 => Some(Piece::Wp),
            1 => Some(Piece::Bp),
            2 => Some(Piece::Wkn),
            3 => Some(Piece::Bkn),
            4 => Some(Piece::Wb),
            5 => Some(Piece::Bb),
            6 => Some(Piece::Wr),
            7 => Some(Piece::Br),
            8 => Some(Piece::Wq),
            9 => Some(Piece::Bq),
            10 => Some(Piece::Wk),
            11 => Some(Piece::Bk),
            12 => Some(Piece::Empty),
            _ => None,
        }
    }
}

/// A move: the moving piece, its squares and its flags.
#[derive(Clone, Copy, PartialEq, Eq, Structural, Debug)]
pub struct Action {
    pub moving_piece: Piece,
    pub from: Square,
    pub to: Square,
    pub is_capture: bool,
    pub captured_piece: Piece,
    pub is_en_passant: bool,
    pub is_castling: bool,
    pub is_promotion: bool,
    pub promoted_to: Piece,
    pub claim_draw: bool,
}

pub open spec fn flag(b: bool) -> nat {
    if b {
        1
    } else {
        0
    }
}

/// The bit layout of a move code, low bits first: moving piece (bits 0-3),
/// from-square (4-11), to-square (12-19), capture flag (20), captured piece
/// (21-24), en-passant flag (25), castling flag (26), promotion flag (27),
/// promoted-to piece (28-31), draw-claim flag (32).
pub open spec fn encode(a: Action) -> nat {
    (piece_index(a.moving_piece) + 0x10 * a.from as nat + 0x1000 * a.to as nat + 0x10_0000 * flag(a.is_capture) + 0x20_0000 * piece_index(a.captured_piece) + 0x200_0000 * flag(a.is_en_passant) + 0x400_0000 * flag(a.is_castling) + 0x800_0000 * flag(a.is_promotion) + 0x1000_0000 * piece_index(a.promoted_to) + 0x1_0000_0000 * flag(a.claim_draw)) as nat
}

/// The field of `code` that starts at bit value `unit` and spans `span` values.
pub open spec fn field(code: nat, unit: nat, span: nat) -> nat
    recommends
        unit > 0,
        span > 0,
{
    (code / unit) % span
}

/// Whether `code` is the code of a move: it fits the layout, each piece
/// field names a piece or the empty marker, and both squares are on the
/// board.
pub open spec fn is_code(code: nat) -> bool {
    &&& code < 0x2_0000_0000
    &&& field(code, 1, 0x10) <= 12
    &&& field(code, 0x10, 0x100) < 64
    &&& field(code, 0x1000, 0x100) < 64
    &&& field(code, 0x20_0000, 0x10) <= 12
    &&& field(code, 0x1000_0000, 0x10) <= 12
}

/// The move that `code` describes.
pub open spec fn decode(code: nat) -> Action {
    Action {
        moving_piece: piece_of_index(field(code, 1, 0x10)),
        from: field(code, 0x10, 0x100) as usize,
        to: field(code, 0x1000, 0x100) as usize,
        is_capture: field(code, 0x10_0000, 2) == 1,
        captured_piece: piece_of_index(field(code, 0x20_0000, 0x10)),
        is_en_passant: field(code, 0x200_0000, 2) == 1,
        is_castling: field(code, 0x400_0000, 2) == 1,
        is_promotion: field(code, 0x800_0000, 2) == 1,
        promoted_to: piece_of_index(field(code, 0x1000_0000, 0x10)),
        claim_draw: field(code, 0x1_0000_0000, 2) == 1,
    }
}

/// Whether the move fits the code: both squares on the board.
pub open spec fn representable(a: Action) -> bool {
    a.from < 64 && a.to < 64
}

/// Every representable move comes back unchanged from its code, and its
/// code is a move code.
#[verifier::rlimit(100)]
pub proof fn lemma_decode_encode(a: Action)
    requires
        representable(a),
    ensures
        is_code(encode(a)),
        decode(encode(a)) == a,
{
    let pm = piece_index(a.moving_piece);
    let f0 = a.from as nat;
    let f1 = a.to as nat;
    let b0 = flag(a.is_capture);
    let pc = piece_index(a.captured_piece);
    let b1 = flag(a.is_en_passant);
    let b2 = flag(a.is_castling);
    let b3 = flag(a.is_promotion);
    let pp = piece_index(a.promoted_to);
    let b4 = flag(a.claim_draw);
    let c = encode(a);
    assert(pm <= 12 && pc <= 12 && pp <= 12);
    assert(c == pm + 0x10 * f0 + 0x1000 * f1 + 0x10_0000 * b0 + 0x20_0000 * pc + 0x200_0000 * b1 + 0x400_0000 * b2 + 0x800_0000 * b3 + 0x1000_0000 * pp + 0x1_0000_0000 * b4);
    assert(c == (0) + 0x1 * (pm + 0x10 * (f0 + 0x100 * f1 + 0x1_0000 * b0 + 0x2_0000 * pc + 0x20_0000 * b1 + 0x40_0000 * b2 + 0x80_0000 * b3 + 0x100_0000 * pp + 0x1000_0000 * b4)));
    lemma_field(c, (0) as nat, pm, (f0 + 0x100 * f1 + 0x1_0000 * b0 + 0x2_0000 * pc + 0x20_0000 * b1 + 0x40_0000 * b2 + 0x80_0000 * b3 + 0x100_0000 * pp + 0x1000_0000 * b4) as nat, 0x1, 0x10);
    assert(c == (pm) + 0x10 * (f0 + 0x100 * (f1 + 0x100 * b0 + 0x200 * pc + 0x2000 * b1 + 0x4000 * b2 + 0x8000 * b3 + 0x1_0000 * pp + 0x10_0000 * b4)));
    lemma_field(c, (pm) as nat, f0, (f1 + 0x100 * b0 + 0x200 * pc + 0x2000 * b1 + 0x4000 * b2 + 0x8000 * b3 + 0x1_0000 * pp + 0x10_0000 * b4) as nat, 0x10, 0x100);
    assert(c == (pm + 0x10 * f0) + 0x1000 * (f1 + 0x100 * (b0 + 0x2 * pc + 0x20 * b1 + 0x40 * b2 + 0x80 * b3 + 0x100 * pp + 0x1000 * b4)));
    lemma_field(c, (pm + 0x10 * f0) as nat, f1, (b0 + 0x2 * pc + 0x20 * b1 + 0x40 * b2 + 0x80 * b3 + 0x100 * pp + 0x1000 * b4) as nat, 0x1000, 0x100);
    assert(c == (pm + 0x10 * f0 + 0x1000 * f1) + 0x10_0000 * (b0 + 0x2 * (pc + 0x10 * b1 + 0x20 * b2 + 0x40 * b3 + 0x80 * pp + 0x800 * b4)));
    lemma_field(c, (pm + 0x10 * f0 + 0x1000 * f1) as nat, b0, (pc + 0x10 * b1 + 0x20 * b2 + 0x40 * b3 + 0x80 * pp + 0x800 * b4) as nat, 0x10_0000, 0x2);
    assert(c == (pm + 0x10 * f0 + 0x1000 * f1 + 0x10_0000 * b0) + 0x20_0000 * (pc + 0x10 * (b1 + 0x2 * b2 + 0x4 * b3 + 0x8 * pp + 0x80 * b4)));
    lemma_field(c, (pm + 0x10 * f0 + 0x1000 * f1 + 0x10_0000 * b0) as nat, pc, (b1 + 0x2 * b2 + 0x4 * b3 + 0x8 * pp + 0x80 * b4) as nat, 0x20_0000, 0x10);
    assert(c == (pm + 0x10 * f0 + 0x1000 * f1 + 0x10_0000 * b0 + 0x20_0000 * pc) + 0x200_0000 * (b1 + 0x2 * (b2 + 0x2 * b3 + 0x4 * pp + 0x40 * b4)));
    lemma_field(c, (pm + 0x10 * f0 + 0x1000 * f1 + 0x10_0000 * b0 + 0x20_0000 * pc) as nat, b1, (b2 + 0x2 * b3 + 0x4 * pp + 0x40 * b4) as nat, 0x200_0000, 0x2);
    assert(c == (pm + 0x10 * f0 + 0x1000 * f1 + 0x10_0000 * b0 + 0x20_0000 * pc + 0x200_0000 * b1) + 0x400_0000 * (b2 + 0x2 * (b3 + 0x2 * pp + 0x20 * b4)));
    lemma_field(c, (pm + 0x10 * f0 + 0x1000 * f1 + 0x10_0000 * b0 + 0x20_0000 * pc + 0x200_0000 * b1) as nat, b2, (b3 + 0x2 * pp + 0x20 * b4) as nat, 0x400_0000, 0x2);
    assert(c == (pm + 0x10 * f0 + 0x1000 * f1 + 0x10_0000 * b0 + 0x20_0000 * pc + 0x200_0000 * b1 + 0x400_0000 * b2) + 0x800_0000 * (b3 + 0x2 * (pp + 0x10 * b4)));
    lemma_field(c, (pm + 0x10 * f0 + 0x1000 * f1 + 0x10_0000 * b0 + 0x20_0000 * pc + 0x200_0000 * b1 + 0x400_0000 * b2) as nat, b3, (pp + 0x10 * b4) as nat, 0x800_0000, 0x2);
    assert(c == (pm + 0x10 * f0 + 0x1000 * f1 + 0x10_0000 * b0 + 0x20_0000 * pc + 0x200_0000 * b1 + 0x400_0000 * b2 + 0x800_0000 * b3) + 0x1000_0000 * (pp + 0x10 * (b4)));
    lemma_field(c, (pm + 0x10 * f0 + 0x1000 * f1 + 0x10_0000 * b0 + 0x20_0000 * pc + 0x200_0000 * b1 + 0x400_0000 * b2 + 0x800_0000 * b3) as nat, pp, (b4) as nat, 0x1000_0000, 0x10);
    assert(c == (pm + 0x10 * f0 + 0x1000 * f1 + 0x10_0000 * b0 + 0x20_0000 * pc + 0x200_0000 * b1 + 0x400_0000 * b2 + 0x800_0000 * b3 + 0x1000_0000 * pp) + 0x1_0000_0000 * (b4 + 0x2 * (0)));
    lemma_field(c, (pm + 0x10 * f0 + 0x1000 * f1 + 0x10_0000 * b0 + 0x20_0000 * pc + 0x200_0000 * b1 + 0x400_0000 * b2 + 0x800_0000 * b3 + 0x1000_0000 * pp) as nat, b4, (0) as nat, 0x1_0000_0000, 0x2);
    assert(c < 0x2_0000_0000);
}

/// A field of `lo + unit * (v + span * hi)`, with `lo` below `unit` and `v`
/// below `span`, is `v`.
proof fn lemma_field(x: nat, lo: nat, v: nat, hi: nat, unit: nat, span: nat)
    requires
        x == lo + unit * (v + span * hi),
        lo < unit,
        v < span,
    ensures
        field(x, unit, span) == v,
{
    let q = v + span * hi;
    assert(x == q * unit + lo) by (nonlinear_arith)
        requires
            x == lo + unit * q,
    ;
    lemma_fundamental_div_mod_converse(x as int, unit as int, q as int, lo as int);
    assert(q == hi * span + v) by (nonlinear_arith)
        requires
            q == v + span * hi,
    ;
    lemma_fundamental_div_mod_converse(q as int, span as int, hi as int, v as int);
}

fn flag_value(b: bool) -> (r: u64)
    ensures
        r == flag(b),
{
    if b {
        1
    } else {
        0
    }
}

impl Action {
    /// The code of the move. The code needs 33 bits, so `requires` asks
    /// that it fit a `usize`: on a 64-bit target it always does.
    pub fn to_usize(self) -> (r: usize)
        requires
            representable(self),
            encode(self) <= usize::MAX,
        ensures
            r == encode(self),
            is_code(r as nat),
            decode(r as nat) == self,
    {
        let pm = self.moving_piece.index() as u64;
        let pc = self.captured_piece.index() as u64;
        let pp = self.promoted_to.index() as u64;
        let f0 = self.from as u64;
        let f1 = self.to as u64;
        let b0 = flag_value(self.is_capture);
        let b1 = flag_value(self.is_en_passant);
        let b2 = flag_value(self.is_castling);
        let b3 = flag_value(self.is_promotion);
        let b4 = flag_value(self.claim_draw);
        proof {
            lemma_decode_encode(self);
        }
        let action: u64 = pm + 0x10 * f0 + 0x1000 * f1 + 0x10_0000 * b0 + 0x20_0000 * pc + 0x200_0000 * b1 + 0x400_0000 * b2 + 0x800_0000 * b3 + 0x1000_0000 * pp + 0x1_0000_0000 * b4;
        action as usize
    }

    /// The move of a code; a code that no move has is refused by `requires`.
    pub fn from_usize(action: usize) -> (r: Self)
        requires
            is_code(action as nat),
        ensures
            r == decode(action as nat),
            representable(r),
    {
        let c = action as u64;
        let moving_piece = Piece::try_from((c % 0x10) as usize);
        let captured_piece = Piece::try_from(((c / 0x20_0000) % 0x10) as usize);
        let promoted_to = Piece::try_from(((c / 0x1000_0000) % 0x10) as usize);
        Action {
            moving_piece: moving_piece.unwrap(),
            from: ((c / 0x10) % 0x100) as usize,
            to: ((c / 0x1000) % 0x100) as usize,
            is_capture: (c / 0x10_0000) % 2 == 1,
            captured_piece: captured_piece.unwrap(),
            is_en_passant: (c / 0x200_0000) % 2 == 1,
            is_castling: (c / 0x400_0000) % 2 == 1,
            is_promotion: (c / 0x800_0000) % 2 == 1,
            promoted_to: promoted_to.unwrap(),
            claim_draw: (c / 0x1_0000_0000) % 2 == 1,
        }
    }
}

} // verus!
