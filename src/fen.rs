use vstd::prelude::*;
use vstd::string::StringSliceAdditionalSpecFns;
use crate::bitboard::{Bitboard, single};

verus! {

/// Why a board description could not be read.
#[derive(Clone, Copy, PartialEq, Eq, Structural, Debug)]
pub enum FENParsingError {
    /// A move counter is not a decimal number that fits a `usize`.
    ParseIntError,
    /// The en-passant square has no valid file letter.
    FileParseError,
    /// The en-passant square has no valid rank digit.
    RankParseError,
    /// A field is missing or holds a character that has no meaning there.
    InvalidFen,
}

/// The fields of a six-field board description.
#[derive(Clone, Copy, PartialEq, Eq, Structural, Debug)]
pub struct Info {
    pub white: bool,
    pub short_white_rights: bool,
    pub long_white_rights: bool,
    pub short_black_rights: bool,
    pub long_black_rights: bool,
    pub en_passant_sq: Option<usize>,
    pub fifty_count: usize,
    pub fullmove_count: usize,
    pub w_pawns: Bitboard,
    pub b_pawns: Bitboard,
    pub w_knights: Bitboard,
    pub b_knights: Bitboard,
    pub w_bishops: Bitboard,
    pub b_bishops: Bitboard,
    pub w_rooks: Bitboard,
    pub b_rooks: Bitboard,
    pub w_queens: Bitboard,
    pub b_queens: Bitboard,
    pub w_kings: Bitboard,
    pub b_kings: Bitboard,
    pub white_mask: Bitboard,
    pub black_mask: Bitboard,
    pub occupied: Bitboard,
}

/// The text split at each space, empty pieces kept.
pub open spec fn split_fields(s: Seq<u8>) -> Seq<Seq<u8>>
    decreases s.len(),
{
    if s.len() == 0 {
        seq![Seq::empty()]
    } else {
        let prev = split_fields(s.drop_last());
        if s.last() == 32u8 {
            prev.push(Seq::empty())
        } else {
            prev.update(prev.len() - 1, prev.last().push(s.last()))
        }
    }
}

pub open spec fn is_digit(c: u8) -> bool {
    48 <= c <= 57
}

/// The decimal value of a string of digits.
pub open spec fn digits_value(s: Seq<u8>) -> int
    decreases s.len(),
{
    if s.len() == 0 {
        0
    } else {
        digits_value(s.drop_last()) * 10 + (s.last() - 48)
    }
}

/// A move counter: one or more digits whose value fits a `usize`.
pub open spec fn count_of(s: Seq<u8>) -> Option<usize> {
    if s.len() > 0 && (forall|i: int| 0 <= i < s.len() ==> is_digit(#[trigger] s[i]))
        && digits_value(s) <= usize::MAX {
        Some(digits_value(s) as usize)
    } else {
        None
    }
}

pub open spec fn file_index(c: u8) -> Option<int> {
    if 97 <= c <= 104 {
        Some(c - 97)
    } else if 65 <= c <= 72 {
        Some(c - 65)
    } else {
        None
    }
}

/// The en-passant field: `-`, or a file letter then a rank digit (what
/// follows them is not read).
pub open spec fn en_passant_of(s: Seq<u8>) -> Result<Option<usize>, FENParsingError> {
    if s == seq![45u8] {
        Ok(None)
    } else if s.len() < 1 || file_index(s[0]).is_none() {
        Err(FENParsingError::FileParseError)
    } else if s.len() < 2 || !(49 <= s[1] <= 56) {
        Err(FENParsingError::RankParseError)
    } else {
        Ok(Some((file_index(s[0]).unwrap() + 8 * (s[1] - 49)) as usize))
    }
}

pub open spec fn is_right_char(c: u8) -> bool {
    c == 75 || c == 81 || c == 107 || c == 113 || c == 45
}

/// The index (as in `Piece`) of a piece letter.
pub open spec fn piece_of_char(c: u8) -> Option<int> {
    if c == 80 {
        Some(0)
    } else if c == 112 {
        Some(1)
    } else if c == 78 {
        Some(2)
    } else if c == 110 {
        Some(3)
    } else if c == 66 {
        Some(4)
    } else if c == 98 {
        Some(5)
    } else if c == 82 {
        Some(6)
    } else if c == 114 {
        Some(7)
    } else if c == 81 {
        Some(8)
    } else if c == 113 {
        Some(9)
    } else if c == 75 {
        Some(10)
    } else if c == 107 {
        Some(11)
    } else {
        None
    }
}

/// Reading the placement field up to its end: the file and rank reached and
/// the twelve boards filled so far; `None` once a character has no meaning
/// there, a `/` passes the first rank, or a piece falls past the last file.
pub open spec fn placement(s: Seq<u8>) -> Option<(int, int, Seq<u64>)>
    decreases s.len(),
{
    if s.len() == 0 {
        Some((0, 7, Seq::new(12, |i: int| 0u64)))
    } else {
        match placement(s.drop_last()) {
            None => None,
            Some((file, rank, boards)) => {
                let c = s.last();
                if c == 47 {
                    if rank == 0 {
                        None
                    } else {
                        Some((0, rank - 1, boards))
                    }
                } else if 49 <= c <= 56 {
                    Some((file + (c - 48), rank, boards))
                } else if piece_of_char(c).is_some() && file < 8 {
                    let p = piece_of_char(c).unwrap();
                    Some((file + 1, rank, boards.update(p, boards[p] | single(file + 8 * rank))))
                } else {
                    None
                }
            },
        }
    }
}

/// What reading the six fields gives, checked from the last field back as
/// the counters come first.
pub open spec fn decode_fields(f: Seq<Seq<u8>>) -> Result<Info, FENParsingError> {
    let n = f.len();
    if n < 6 {
        Err(FENParsingError::InvalidFen)
    } else if count_of(f[n - 1]).is_none() || count_of(f[n - 2]).is_none() {
        Err(FENParsingError::ParseIntError)
    } else if en_passant_of(f[n - 3]) is Err {
        Err(en_passant_of(f[n - 3]).get_Err_0())
    } else if !(forall|i: int| 0 <= i < f[n - 4].len() ==> is_right_char(#[trigger] f[n - 4][i])) {
        Err(FENParsingError::InvalidFen)
    } else if f[n - 5] != seq![119u8] && f[n - 5] != seq![98u8] {
        Err(FENParsingError::InvalidFen)
    } else if placement(f[n - 6]).is_none() {
        Err(FENParsingError::InvalidFen)
    } else {
        let b = placement(f[n - 6]).unwrap().2;
        let rights = f[n - 4];
        let w = b[0] | b[2] | b[4] | b[6] | b[8] | b[10];
        let k = b[1] | b[3] | b[5] | b[7] | b[9] | b[11];
        Ok(
            Info {
                white: f[n - 5] == seq![119u8],
                short_white_rights: rights.contains(75u8),
                long_white_rights: rights.contains(81u8),
                short_black_rights: rights.contains(107u8),
                long_black_rights: rights.contains(113u8),
                en_passant_sq: en_passant_of(f[n - 3]).get_Ok_0(),
                fifty_count: count_of(f[n - 2]).unwrap(),
                fullmove_count: count_of(f[n - 1]).unwrap(),
                w_pawns: Bitboard(b[0]),
                b_pawns: Bitboard(b[1]),
                w_knights: Bitboard(b[2]),
                b_knights: Bitboard(b[3]),
                w_bishops: Bitboard(b[4]),
                b_bishops: Bitboard(b[5]),
                w_rooks: Bitboard(b[6]),
                b_rooks: Bitboard(b[7]),
                w_queens: Bitboard(b[8]),
                b_queens: Bitboard(b[9]),
                w_kings: Bitboard(b[10]),
                b_kings: Bitboard(b[11]),
                white_mask: Bitboard(w),
                black_mask: Bitboard(k),
                occupied: Bitboard(w | k),
            },
        )
    }
}

fn split_at_spaces(s: &[u8]) -> (r: Vec<Vec<u8>>)
    ensures
        r@.len() == split_fields(s@).len(),
        forall|k: int| 0 <= k < r@.len() ==> (#[trigger] r@[k])@ == split_fields(s@)[k],
{
    let mut fields: Vec<Vec<u8>> = Vec::new();
    fields.push(Vec::new());
    let mut i: usize = 0;
    proof {
        assert(s@.subrange(0, 0) =~= Seq::<u8>::empty());
    }
    while i < s.len()
        invariant
            i <= s@.len(),
            fields@.len() == split_fields(s@.subrange(0, i as int)).len(),
            fields@.len() > 0,
            forall|k: int|
                0 <= k < fields@.len() ==> (#[trigger] fields@[k])@ == split_fields(s@.subrange(0, i as int))[k],
        decreases s@.len() - i,
    {
        let c = s[i];
        proof {
            assert(s@.subrange(0, i + 1).drop_last() =~= s@.subrange(0, i as int));
            assert(s@.subrange(0, i + 1).last() == c);
        }
        let ghost prev = split_fields(s@.subrange(0, i as int));
        if c == 32 {
            fields.push(Vec::new());
        } else {
            let last = fields.len() - 1;
            let ghost before = fields@;
            let mut cur = fields.pop().unwrap();
            cur.push(c);
            fields.push(cur);
            proof {
                assert(fields@[last as int]@ == prev.last().push(c));
                assert forall|k: int| 0 <= k < fields@.len() implies (#[trigger] fields@[k])@
                    == split_fields(s@.subrange(0, i + 1))[k] by {
                    if k < last {
                        assert(fields@[k] == before[k]);
                    }
                }
            }
        }
        i = i + 1;
    }
    proof {
        assert(s@.subrange(0, s@.len() as int) =~= s@);
    }
    fields
}

proof fn lemma_digits_grow(s: Seq<u8>, j: int, k: int)
    requires
        0 <= j <= k <= s.len(),
        forall|i: int| 0 <= i < s.len() ==> is_digit(#[trigger] s[i]),
    ensures
        0 <= digits_value(s.subrange(0, j)) <= digits_value(s.subrange(0, k)),
    decreases k,
{
    if k > 0 {
        assert(s.subrange(0, k).drop_last() =~= s.subrange(0, k - 1));
        assert(is_digit(s[k - 1]));
        if j < k {
            lemma_digits_grow(s, j, k - 1);
        } else {
            lemma_digits_grow(s, k - 1, k - 1);
        }
    } else {
        assert(s.subrange(0, 0) =~= Seq::<u8>::empty());
    }
}

/// A move counter.
fn parse_count(s: &Vec<u8>) -> (r: Option<usize>)
    ensures
        r == count_of(s@),
{
    if s.len() == 0 {
        return None;
    }
    let mut v: usize = 0;
    let mut i: usize = 0;
    proof {
        assert(s@.subrange(0, 0) =~= Seq::<u8>::empty());
    }
    while i < s.len()
        invariant
            i <= s@.len(),
            s@.len() > 0,
            v == digits_value(s@.subrange(0, i as int)),
            forall|j: int| 0 <= j < i ==> is_digit(#[trigger] s@[j]),
        decreases s@.len() - i,
    {
        let c = s[i];
        if c < 48 || c > 57 {
            proof {
                assert(!is_digit(s@[i as int]));
            }
            return None;
        }
        let d = (c - 48) as usize;
        proof {
            assert(s@.subrange(0, i + 1).drop_last() =~= s@.subrange(0, i as int));
        }
        if v > (usize::MAX - d) / 10 {
            proof {
                assert(v * 10 + d > usize::MAX) by (nonlinear_arith)
                    requires
                        v > (usize::MAX - d) / 10,
                        d <= 9,
                ;
                if forall|j: int| 0 <= j < s@.len() ==> is_digit(#[trigger] s@[j]) {
                    lemma_digits_grow(s@, i + 1, s@.len() as int);
                    assert(s@.subrange(0, s@.len() as int) =~= s@);
                }
            }
            return None;
        }
        proof {
            assert(v * 10 + d <= usize::MAX) by (nonlinear_arith)
                requires
                    v <= (usize::MAX - d) / 10,
                    d <= 9,
            ;
        }
        v = v * 10 + d;
        i = i + 1;
    }
    proof {
        assert(s@.subrange(0, s@.len() as int) =~= s@);
    }
    Some(v)
}

fn parse_file(c: u8) -> (r: Option<usize>)
    ensures
        r matches Some(f) ==> file_index(c) == Some(f as int),
        r.is_none() ==> file_index(c).is_none(),
{
    if 97 <= c && c <= 104 {
        Some((c - 97) as usize)
    } else if 65 <= c && c <= 72 {
        Some((c - 65) as usize)
    } else {
        None
    }
}

/// The en-passant field.
fn parse_en_passant(s: &Vec<u8>) -> (r: Result<Option<usize>, FENParsingError>)
    ensures
        r == en_passant_of(s@),
{
    if s.len() == 1 && s[0] == 45 {
        proof {
            assert(s@ =~= seq![45u8]);
        }
        return Ok(None);
    }
    proof {
        if s@ == seq![45u8] {
            assert(s@.len() == 1 && s@[0] == 45);
        }
    }
    if s.len() < 1 {
        return Err(FENParsingError::FileParseError);
    }
    let file = match parse_file(s[0]) {
        Some(f) => f,
        None => {
            return Err(FENParsingError::FileParseError);
        },
    };
    if s.len() < 2 || s[1] < 49 || s[1] > 56 {
        return Err(FENParsingError::RankParseError);
    }
    Ok(Some(file + 8 * ((s[1] - 49) as usize)))
}

/// The castling field: which of `K`, `Q`, `k`, `q` it holds; `None` when it
/// holds any character but those and `-`.
fn parse_rights(s: &Vec<u8>) -> (r: Option<(bool, bool, bool, bool)>)
    ensures
        r.is_some() <==> forall|i: int| 0 <= i < s@.len() ==> is_right_char(#[trigger] s@[i]),
        r matches Some(f) ==> f == (s@.contains(75u8), s@.contains(81u8), s@.contains(107u8), s@.contains(113u8)),
{
    let mut sw = false;
    let mut lw = false;
    let mut sb = false;
    let mut lb = false;
    let mut i: usize = 0;
    while i < s.len()
        invariant
            i <= s@.len(),
            forall|j: int| 0 <= j < i ==> is_right_char(#[trigger] s@[j]),
            sw == exists|j: int| 0 <= j < i && #[trigger] s@[j] == 75u8,
            lw == exists|j: int| 0 <= j < i && #[trigger] s@[j] == 81u8,
            sb == exists|j: int| 0 <= j < i && #[trigger] s@[j] == 107u8,
            lb == exists|j: int| 0 <= j < i && #[trigger] s@[j] == 113u8,
        decreases s@.len() - i,
    {
        let c = s[i];
        if c == 75 {
            sw = true;
        } else if c == 81 {
            lw = true;
        } else if c == 107 {
            sb = true;
        } else if c == 113 {
            lb = true;
        } else if c != 45 {
            proof {
                assert(!is_right_char(s@[i as int]));
            }
            return None;
        }
        i = i + 1;
    }
    Some((sw, lw, sb, lb))
}

/// The placement field: the twelve boards, indexed as `Piece`.
fn parse_placement(s: &Vec<u8>) -> (r: Option<[u64; 12]>)
    ensures
        r.is_some() <==> placement(s@).is_some(),
        r matches Some(b) ==> b@ == placement(s@).unwrap().2,
{
    let mut boards: [u64; 12] = [0; 12];
    let mut file: usize = 0;
    let mut rank: usize = 7;
    let mut i: usize = 0;
    proof {
        assert(s@.subrange(0, 0) =~= Seq::<u8>::empty());
        assert(boards@ =~= Seq::new(12, |j: int| 0u64));
    }
    while i < s.len()
        invariant
            i <= s@.len(),
            placement(s@.subrange(0, i as int)) matches Some((f, rk, b)) && rank == rk && boards@ == b
                && file == (if f < 9 { f } else { 9 }) && b.len() == 12 && 0 <= rk <= 7,
        decreases s@.len() - i,
    {
        let c = s[i];
        proof {
            assert(s@.subrange(0, i + 1).drop_last() =~= s@.subrange(0, i as int));
        }
        if c == 47 {
            if rank == 0 {
                proof {
                    lemma_placement_stays_none(s@, i + 1);
                }
                return None;
            }
            rank = rank - 1;
            file = 0;
        } else if 49 <= c && c <= 56 {
            let d = (c - 48) as usize;
            file = if file + d < 9 {
                file + d
            } else {
                9
            };
        } else {
            let p: usize = if c == 80 {
                0
            } else if c == 112 {
                1
            } else if c == 78 {
                2
            } else if c == 110 {
                3
            } else if c == 66 {
                4
            } else if c == 98 {
                5
            } else if c == 82 {
                6
            } else if c == 114 {
                7
            } else if c == 81 {
                8
            } else if c == 113 {
                9
            } else if c == 75 {
                10
            } else if c == 107 {
                11
            } else {
                12
            };
            if p == 12 || file >= 8 {
                proof {
                    lemma_placement_stays_none(s@, i + 1);
                }
                return None;
            }
            let sq = file + 8 * rank;
            boards[p] = boards[p] | (1u64 << (sq as u64));
            file = file + 1;
        }
        i = i + 1;
    }
    proof {
        assert(s@.subrange(0, s@.len() as int) =~= s@);
    }
    Some(boards)
}

proof fn lemma_placement_stays_none(s: Seq<u8>, i: int)
    requires
        0 <= i <= s.len(),
        placement(s.subrange(0, i)) is None,
    ensures
        placement(s) is None,
    decreases s.len() - i,
{
    if i < s.len() {
        assert(s.subrange(0, i + 1).drop_last() =~= s.subrange(0, i));
        lemma_placement_stays_none(s, i + 1);
    } else {
        assert(s.subrange(0, i) =~= s);
    }
}

impl Info {
    /// Reads a six-field board description: piece placement, side to move,
    /// castling rights, en-passant square, fifty-move count, move number.
    /// The fields are the last six pieces of the text split at each space.
    pub fn from_fen(fen: &str) -> (r: Result<Info, FENParsingError>)
        ensures
            r == decode_fields(split_fields(fen.spec_bytes())),
    {
        let bytes = fen.as_bytes();
        let fields = split_at_spaces(bytes);
        let ghost f = split_fields(bytes@);
        let n = fields.len();
        if n < 6 {
            return Err(FENParsingError::InvalidFen);
        }
        let fullmove = parse_count(&fields[n - 1]);
        let fifty = parse_count(&fields[n - 2]);
        let (fullmove_count, fifty_count) = match (fullmove, fifty) {
            (Some(a), Some(b)) => (a, b),
            _ => {
                return Err(FENParsingError::ParseIntError);
            },
        };
        let en_passant_sq = match parse_en_passant(&fields[n - 3]) {
            Ok(e) => e,
            Err(e) => {
                return Err(e);
            },
        };
        let (sw, lw, sb, lb) = match parse_rights(&fields[n - 4]) {
            Some(x) => x,
            None => {
                return Err(FENParsingError::InvalidFen);
            },
        };
        let player = &fields[n - 5];
        let white = if player.len() == 1 && player[0] == 119 {
            true
        } else if player.len() == 1 && player[0] == 98 {
            false
        } else {
            proof {
                if f[n - 5] == seq![119u8] || f[n - 5] == seq![98u8] {
                    assert(f[n - 5].len() == 1);
                    assert(f[n - 5][0] == 119u8 || f[n - 5][0] == 98u8);
                }
            }
            return Err(FENParsingError::InvalidFen);
        };
        proof {
            if white {
                assert(f[n - 5] =~= seq![119u8]);
            } else {
                assert(f[n - 5] =~= seq![98u8]);
                assert(f[n - 5] != seq![119u8]);
            }
        }
        let b = match parse_placement(&fields[n - 6]) {
            Some(b) => b,
            None => {
                return Err(FENParsingError::InvalidFen);
            },
        };
        let w = b[0] | b[2] | b[4] | b[6] | b[8] | b[10];
        let k = b[1] | b[3] | b[5] | b[7] | b[9] | b[11];
        Ok(
            Info {
                white,
                short_white_rights: sw,
                long_white_rights: lw,
                short_black_rights: sb,
                long_black_rights: lb,
                en_passant_sq,
                fifty_count,
                fullmove_count,
                w_pawns: Bitboard(b[0]),
                b_pawns: Bitboard(b[1]),
                w_knights: Bitboard(b[2]),
                b_knights: Bitboard(b[3]),
                w_bishops: Bitboard(b[4]),
                b_bishops: Bitboard(b[5]),
                w_rooks: Bitboard(b[6]),
                b_rooks: Bitboard(b[7]),
                w_queens: Bitboard(b[8]),
                b_queens: Bitboard(b[9]),
                w_kings: Bitboard(b[10]),
                b_kings: Bitboard(b[11]),
                white_mask: Bitboard(w),
                black_mask: Bitboard(k),
                occupied: Bitboard(w | k),
            },
        )
    }
}

} // verus!
