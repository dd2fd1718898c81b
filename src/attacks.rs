use vstd::prelude::*;
use crate::bitboard::{
    Bitboard, bit_at, single, lemma_bits, compact, unfold, unfold_occupancy, lemma_unfold_compact,
    lemma_compact_le,
};

verus! {

pub open spec fn file_of(s: int) -> int {
    s % 8
}

pub open spec fn rank_of(s: int) -> int {
    s / 8
}

pub open spec fn on_board(f: int, r: int) -> bool {
    0 <= f < 8 && 0 <= r < 8
}

pub open spec fn square_at(f: int, r: int) -> int {
    f + 8 * r
}

/// `k` steps along one axis in direction `d` (-1, 0 or 1).
pub open spec fn dstep(k: int, d: int) -> int {
    if d > 0 {
        k
    } else if d < 0 {
        -k
    } else {
        0
    }
}

/// Whether the square `k` steps from `s` in direction `(df, dr)` is on the
/// board.
pub open spec fn ray_ok(s: int, df: int, dr: int, k: int) -> bool {
    on_board(file_of(s) + dstep(k, df), rank_of(s) + dstep(k, dr))
}

/// The square `k` steps from `s` in direction `(df, dr)`.
pub open spec fn ray_sq(s: int, df: int, dr: int, k: int) -> int {
    square_at(file_of(s) + dstep(k, df), rank_of(s) + dstep(k, dr))
}

pub open spec fn is_dir(df: int, dr: int) -> bool {
    -1 <= df <= 1 && -1 <= dr <= 1 && (df != 0 || dr != 0)
}

/// Whether a slider on `s` moving in direction `(df, dr)` reaches `t` over
/// the occupancy `occ`: `t` lies on that ray and no square before it is
/// occupied (`t` itself may be, as a capture).
pub open spec fn ray_reaches(s: int, df: int, dr: int, occ: u64, t: int) -> bool {
    exists|k: int|
        k >= 1 && ray_ok(s, df, dr, k) && #[trigger] ray_sq(s, df, dr, k) == t && forall|j: int|
            1 <= j < k ==> !bit_at(occ, #[trigger] ray_sq(s, df, dr, j))
}

/// Whether a rook-like slider on `s` reaches `t` over `occ`.
pub open spec fn orth_reaches(s: int, occ: u64, t: int) -> bool {
    ray_reaches(s, 1, 0, occ, t) || ray_reaches(s, -1, 0, occ, t) || ray_reaches(s, 0, 1, occ, t)
        || ray_reaches(s, 0, -1, occ, t)
}

/// Whether a bishop-like slider on `s` reaches `t` over `occ`.
pub open spec fn diag_reaches(s: int, occ: u64, t: int) -> bool {
    ray_reaches(s, 1, 1, occ, t) || ray_reaches(s, 1, -1, occ, t) || ray_reaches(s, -1, 1, occ, t)
        || ray_reaches(s, -1, -1, occ, t)
}

pub open spec fn slider_reaches(s: int, occ: u64, diagonal: bool, t: int) -> bool {
    if diagonal {
        diag_reaches(s, occ, t)
    } else {
        orth_reaches(s, occ, t)
    }
}

/// Whether `t` is on the ray from `s` in direction `(df, dr)` and is not its
/// last square: the squares whose occupancy can stop a slider.
pub open spec fn ray_inner(s: int, df: int, dr: int, t: int) -> bool {
    exists|k: int| k >= 1 && ray_ok(s, df, dr, k + 1) && #[trigger] ray_sq(s, df, dr, k) == t
}

/// The relevant-occupancy squares of `s`: its rays without `s` and without
/// the edge square that ends each ray.
pub open spec fn relevant(s: int, diagonal: bool, t: int) -> bool {
    if diagonal {
        ray_inner(s, 1, 1, t) || ray_inner(s, 1, -1, t) || ray_inner(s, -1, 1, t) || ray_inner(
            s,
            -1,
            -1,
            t,
        )
    } else {
        ray_inner(s, 1, 0, t) || ray_inner(s, -1, 0, t) || ray_inner(s, 0, 1, t) || ray_inner(
            s,
            0,
            -1,
            t,
        )
    }
}

proof fn lemma_square_at(f: int, r: int)
    requires
        on_board(f, r),
    ensures
        file_of(square_at(f, r)) == f,
        rank_of(square_at(f, r)) == r,
        0 <= square_at(f, r) < 64,
{
    assert((f + 8 * r) % 8 == f && (f + 8 * r) / 8 == r) by (nonlinear_arith)
        requires
            0 <= f < 8,
            0 <= r < 8,
    ;
}

proof fn lemma_square_bounds(s: int)
    requires
        0 <= s < 64,
    ensures
        0 <= file_of(s) < 8,
        0 <= rank_of(s) < 8,
        square_at(file_of(s), rank_of(s)) == s,
{
    assert(0 <= s % 8 < 8 && 0 <= s / 8 < 8 && s % 8 + 8 * (s / 8) == s) by (nonlinear_arith)
        requires
            0 <= s < 64,
    ;
}

/// The squares that a slider on `s` moving in direction `(df, dr)` reaches
/// over the occupancy `occ`.
fn cast_ray(s: usize, df: i64, dr: i64, occ: u64) -> (r: u64)
    requires
        s < 64,
        is_dir(df as int, dr as int),
    ensures
        forall|t: int| #[trigger] bit_at(r, t) <==> ray_reaches(s as int, df as int, dr as int, occ, t),
{
    let ghost si = s as int;
    let mut f: i64 = (s % 8) as i64;
    let mut rk: i64 = (s / 8) as i64;
    let mut k: i64 = 0;
    let mut result: u64 = 0;
    let mut blocked = false;
    proof {
        lemma_bits(0, 0, 0);
        lemma_square_bounds(si);
    }
    while !blocked && 0 <= f + df && f + df < 8 && 0 <= rk + dr && rk + dr < 8
        invariant
            s < 64,
            is_dir(df as int, dr as int),
            0 <= k <= 7,
            f == file_of(si) + dstep(k as int, df as int),
            rk == rank_of(si) + dstep(k as int, dr as int),
            0 <= f < 8,
            0 <= rk < 8,
            forall|j: int| 1 <= j <= k ==> ray_ok(si, df as int, dr as int, j),
            forall|t: int|
                #[trigger] bit_at(result, t) <==> exists|j: int|
                    1 <= j <= k && #[trigger] ray_sq(si, df as int, dr as int, j) == t,
            forall|j: int| 1 <= j < k ==> !bit_at(occ, #[trigger] ray_sq(si, df as int, dr as int, j)),
            blocked ==> k >= 1,
            k >= 1 ==> (blocked <==> bit_at(occ, ray_sq(si, df as int, dr as int, k as int))),
            0 <= file_of(si) < 8,
            0 <= rank_of(si) < 8,
        decreases 7 - k,
    {
        f = f + df;
        rk = rk + dr;
        k = k + 1;
        let t = (f + 8 * rk) as u64;
        proof {
            lemma_square_at(f as int, rk as int);
            lemma_bits(result, single(t as int), t as int);
            assert(ray_sq(si, df as int, dr as int, k as int) == t);
            assert forall|u: int|
                #[trigger] bit_at(result | single(t as int), u) <==> exists|j: int|
                    1 <= j <= k && #[trigger] ray_sq(si, df as int, dr as int, j) == u by {
                if bit_at(result, u) {
                    let j = choose|j: int| 1 <= j <= k - 1 && #[trigger] ray_sq(si, df as int, dr as int, j) == u;
                    assert(1 <= j <= k && ray_sq(si, df as int, dr as int, j) == u);
                }
                if exists|j: int| 1 <= j <= k && #[trigger] ray_sq(si, df as int, dr as int, j) == u {
                    let j = choose|j: int| 1 <= j <= k && #[trigger] ray_sq(si, df as int, dr as int, j) == u;
                    if j < k {
                        assert(bit_at(result, u));
                    }
                }
            }
        }
        result = result | (1u64 << t);
        if (occ >> t) & 1 == 1 {
            blocked = true;
        }
    }
    proof {
        assert forall|t: int| #[trigger] bit_at(result, t) <==> ray_reaches(si, df as int, dr as int, occ, t) by {
            if bit_at(result, t) {
                let j = choose|j: int| 1 <= j <= k && #[trigger] ray_sq(si, df as int, dr as int, j) == t;
                assert(ray_ok(si, df as int, dr as int, j));
                assert forall|i: int| 1 <= i < j implies !bit_at(occ, #[trigger] ray_sq(si, df as int, dr as int, i)) by {
                }
            }
            if ray_reaches(si, df as int, dr as int, occ, t) {
                let j = choose|j: int|
                    j >= 1 && ray_ok(si, df as int, dr as int, j) && #[trigger] ray_sq(si, df as int, dr as int, j) == t
                        && forall|i: int| 1 <= i < j ==> !bit_at(occ, #[trigger] ray_sq(si, df as int, dr as int, i));
                if j > k {
                    if blocked {
                        assert(!bit_at(occ, ray_sq(si, df as int, dr as int, k as int)));
                    } else {
                        assert(ray_ok(si, df as int, dr as int, k + 1));
                    }
                }
                assert(bit_at(result, t));
            }
        }
    }
    result
}

/// The inner squares of the ray from `s` in direction `(df, dr)`: all but
/// its last square.
fn inner_ray(s: usize, df: i64, dr: i64) -> (r: u64)
    requires
        s < 64,
        is_dir(df as int, dr as int),
    ensures
        forall|t: int| #[trigger] bit_at(r, t) <==> ray_inner(s as int, df as int, dr as int, t),
{
    let ghost si = s as int;
    let mut f: i64 = (s % 8) as i64;
    let mut rk: i64 = (s / 8) as i64;
    let mut k: i64 = 0;
    let mut result: u64 = 0;
    proof {
        lemma_bits(0, 0, 0);
        lemma_square_bounds(si);
    }
    while 0 <= f + 2 * df && f + 2 * df < 8 && 0 <= rk + 2 * dr && rk + 2 * dr < 8
        invariant
            s < 64,
            is_dir(df as int, dr as int),
            0 <= k <= 6,
            f == file_of(si) + dstep(k as int, df as int),
            rk == rank_of(si) + dstep(k as int, dr as int),
            0 <= f < 8,
            0 <= rk < 8,
            k >= 1 ==> ray_ok(si, df as int, dr as int, k + 1),
            forall|t: int|
                #[trigger] bit_at(result, t) <==> exists|j: int|
                    1 <= j <= k && #[trigger] ray_sq(si, df as int, dr as int, j) == t,
            0 <= file_of(si) < 8,
            0 <= rank_of(si) < 8,
        decreases 6 - k,
    {
        f = f + df;
        rk = rk + dr;
        k = k + 1;
        let t = (f + 8 * rk) as u64;
        proof {
            lemma_square_at(f as int, rk as int);
            lemma_bits(result, single(t as int), t as int);
            assert(ray_sq(si, df as int, dr as int, k as int) == t);
            assert forall|u: int|
                #[trigger] bit_at(result | single(t as int), u) <==> exists|j: int|
                    1 <= j <= k && #[trigger] ray_sq(si, df as int, dr as int, j) == u by {
                if bit_at(result, u) {
                    let j = choose|j: int| 1 <= j <= k - 1 && #[trigger] ray_sq(si, df as int, dr as int, j) == u;
                    assert(1 <= j <= k && ray_sq(si, df as int, dr as int, j) == u);
                }
                if exists|j: int| 1 <= j <= k && #[trigger] ray_sq(si, df as int, dr as int, j) == u {
                    let j = choose|j: int| 1 <= j <= k && #[trigger] ray_sq(si, df as int, dr as int, j) == u;
                    if j < k {
                        assert(bit_at(result, u));
                    }
                }
            }
        }
        result = result | (1u64 << t);
    }
    proof {
        assert forall|t: int| #[trigger] bit_at(result, t) <==> ray_inner(si, df as int, dr as int, t) by {
            if bit_at(result, t) {
                let j = choose|j: int| 1 <= j <= k && #[trigger] ray_sq(si, df as int, dr as int, j) == t;
                assert(ray_ok(si, df as int, dr as int, j + 1));
            }
            if ray_inner(si, df as int, dr as int, t) {
                let j = choose|j: int|
                    j >= 1 && ray_ok(si, df as int, dr as int, j + 1) && #[trigger] ray_sq(si, df as int, dr as int, j) == t;
                if j > k {
                    assert(ray_ok(si, df as int, dr as int, k + 2));
                }
                assert(bit_at(result, t));
            }
        }
    }
    result
}

/// The squares a slider on `s` reaches over `occ`: along ranks and files,
/// or along diagonals.
pub fn slider_attacks(s: usize, occ: u64, diagonal: bool) -> (r: u64)
    requires
        s < 64,
    ensures
        forall|t: int| #[trigger] bit_at(r, t) <==> slider_reaches(s as int, occ, diagonal, t),
{
    let (a, b, c, d) = if diagonal {
        (cast_ray(s, 1, 1, occ), cast_ray(s, 1, -1, occ), cast_ray(s, -1, 1, occ), cast_ray(s, -1, -1, occ))
    } else {
        (cast_ray(s, 1, 0, occ), cast_ray(s, -1, 0, occ), cast_ray(s, 0, 1, occ), cast_ray(s, 0, -1, occ))
    };
    proof {
        lemma_bits(a, b, 0);
        lemma_bits(a | b, c, 0);
        lemma_bits((a | b) | c, d, 0);
    }
    ((a | b) | c) | d
}

/// The relevant-occupancy mask of `s` for one kind of slider.
pub fn relevant_mask(s: usize, diagonal: bool) -> (r: u64)
    requires
        s < 64,
    ensures
        forall|t: int| #[trigger] bit_at(r, t) <==> relevant(s as int, diagonal, t),
{
    let (a, b, c, d) = if diagonal {
        (inner_ray(s, 1, 1), inner_ray(s, 1, -1), inner_ray(s, -1, 1), inner_ray(s, -1, -1))
    } else {
        (inner_ray(s, 1, 0), inner_ray(s, -1, 0), inner_ray(s, 0, 1), inner_ray(s, 0, -1))
    };
    proof {
        lemma_bits(a, b, 0);
        lemma_bits(a | b, c, 0);
        lemma_bits((a | b) | c, d, 0);
    }
    ((a | b) | c) | d
}

/// Whether `t` is the square `(df, dr)` away from `s`, on the board.
pub open spec fn hop(s: int, df: int, dr: int, t: int) -> bool {
    on_board(file_of(s) + df, rank_of(s) + dr) && t == square_at(file_of(s) + df, rank_of(s) + dr)
}

pub open spec fn knight_attack(s: int, t: int) -> bool {
    ||| hop(s, 1, 2, t)
    ||| hop(s, 2, 1, t)
    ||| hop(s, 2, -1, t)
    ||| hop(s, 1, -2, t)
    ||| hop(s, -1, -2, t)
    ||| hop(s, -2, -1, t)
    ||| hop(s, -2, 1, t)
    ||| hop(s, -1, 2, t)
}

/// Whether a pawn of the given color on `s` attacks `t`.
pub open spec fn pawn_attack(white: bool, s: int, t: int) -> bool {
    if white {
        hop(s, 1, 1, t) || hop(s, -1, 1, t)
    } else {
        hop(s, 1, -1, t) || hop(s, -1, -1, t)
    }
}

fn hop_mask(s: usize, df: i64, dr: i64) -> (r: u64)
    requires
        s < 64,
        -2 <= df <= 2,
        -2 <= dr <= 2,
    ensures
        forall|t: int| #[trigger] bit_at(r, t) <==> hop(s as int, df as int, dr as int, t),
{
    proof {
        lemma_square_bounds(s as int);
        lemma_bits(0, 0, 0);
    }
    let f = (s % 8) as i64 + df;
    let r = (s / 8) as i64 + dr;
    if 0 <= f && f < 8 && 0 <= r && r < 8 {
        let t = (f + 8 * r) as u64;
        proof {
            lemma_square_at(f as int, r as int);
            lemma_bits(0, 0, t as int);
            assert(single(t as int) == 1u64 << t);
        }
        1u64 << t
    } else {
        0
    }
}

fn knight_mask(s: usize) -> (r: u64)
    requires
        s < 64,
    ensures
        forall|t: int| #[trigger] bit_at(r, t) <==> knight_attack(s as int, t),
{
    let a = hop_mask(s, 1, 2);
    let b = hop_mask(s, 2, 1);
    let c = hop_mask(s, 2, -1);
    let d = hop_mask(s, 1, -2);
    let e = hop_mask(s, -1, -2);
    let f = hop_mask(s, -2, -1);
    let g = hop_mask(s, -2, 1);
    let h = hop_mask(s, -1, 2);
    proof {
        lemma_bits(a, b, 0);
        lemma_bits(a | b, c, 0);
        lemma_bits(a | b | c, d, 0);
        lemma_bits(a | b | c | d, e, 0);
        lemma_bits(a | b | c | d | e, f, 0);
        lemma_bits(a | b | c | d | e | f, g, 0);
        lemma_bits(a | b | c | d | e | f | g, h, 0);
    }
    a | b | c | d | e | f | g | h
}

fn pawn_mask(white: bool, s: usize) -> (r: u64)
    requires
        s < 64,
    ensures
        forall|t: int| #[trigger] bit_at(r, t) <==> pawn_attack(white, s as int, t),
{
    let dr: i64 = if white {
        1
    } else {
        -1
    };
    let a = hop_mask(s, 1, dr);
    let b = hop_mask(s, -1, dr);
    proof {
        lemma_bits(a, b, 0);
    }
    a | b
}

pub open spec fn sgn(x: int) -> int {
    if x > 0 {
        1
    } else if x < 0 {
        -1
    } else {
        0
    }
}

pub open spec fn abs(x: int) -> int {
    if x < 0 {
        -x
    } else {
        x
    }
}

/// Whether `a` and `b` are different squares on one rank, file or diagonal.
pub open spec fn aligned(a: int, b: int) -> bool {
    let df = file_of(b) - file_of(a);
    let dr = rank_of(b) - rank_of(a);
    (df != 0 || dr != 0) && (df == 0 || dr == 0 || abs(df) == abs(dr))
}

/// The number of king steps from `a` to `b`.
pub open spec fn distance(a: int, b: int) -> int {
    let df = abs(file_of(b) - file_of(a));
    let dr = abs(rank_of(b) - rank_of(a));
    if df > dr {
        df
    } else {
        dr
    }
}

/// Whether `t` lies strictly between the aligned squares `a` and `b`.
pub open spec fn between(a: int, b: int, t: int) -> bool {
    aligned(a, b) && exists|j: int|
        1 <= j < distance(a, b) && #[trigger] ray_sq(
            a,
            sgn(file_of(b) - file_of(a)),
            sgn(rank_of(b) - rank_of(a)),
            j,
        ) == t
}

/// The squares strictly between `a` and `b`; empty unless they are aligned.
pub fn between_squares(a: usize, b: usize) -> (r: u64)
    requires
        a < 64,
        b < 64,
    ensures
        forall|t: int| #[trigger] bit_at(r, t) <==> between(a as int, b as int, t),
{
    proof {
        lemma_square_bounds(a as int);
        lemma_square_bounds(b as int);
        lemma_bits(0, 0, 0);
    }
    let fa = (a % 8) as i64;
    let ra = (a / 8) as i64;
    let dfx = (b % 8) as i64 - fa;
    let drx = (b / 8) as i64 - ra;
    let adf = if dfx < 0 {
        -dfx
    } else {
        dfx
    };
    let adr = if drx < 0 {
        -drx
    } else {
        drx
    };
    if !((dfx != 0 || drx != 0) && (dfx == 0 || drx == 0 || adf == adr)) {
        return 0;
    }
    let sf: i64 = if dfx > 0 {
        1
    } else if dfx < 0 {
        -1
    } else {
        0
    };
    let sr: i64 = if drx > 0 {
        1
    } else if drx < 0 {
        -1
    } else {
        0
    };
    let n = if adf > adr {
        adf
    } else {
        adr
    };
    let ghost ai = a as int;
    let mut f = fa;
    let mut rk = ra;
    let mut k: i64 = 0;
    let mut result: u64 = 0;
    while k + 1 < n
        invariant
            a < 64,
            b < 64,
            aligned(ai, b as int),
            n == distance(ai, b as int),
            1 <= n <= 7,
            sf == sgn(file_of(b as int) - file_of(ai)),
            sr == sgn(rank_of(b as int) - rank_of(ai)),
            0 <= file_of(ai) < 8,
            0 <= rank_of(ai) < 8,
            0 <= file_of(b as int) < 8,
            0 <= rank_of(b as int) < 8,
            0 <= k < n,
            f == file_of(ai) + dstep(k as int, sf as int),
            rk == rank_of(ai) + dstep(k as int, sr as int),
            forall|t: int|
                #[trigger] bit_at(result, t) <==> exists|j: int|
                    1 <= j <= k && #[trigger] ray_sq(ai, sf as int, sr as int, j) == t,
        decreases n - k,
    {
        f = f + sf;
        rk = rk + sr;
        k = k + 1;
        let t = (f + 8 * rk) as u64;
        proof {
            lemma_square_at(f as int, rk as int);
            lemma_bits(result, single(t as int), t as int);
            assert(ray_sq(ai, sf as int, sr as int, k as int) == t);
            assert forall|u: int|
                #[trigger] bit_at(result | single(t as int), u) <==> exists|j: int|
                    1 <= j <= k && #[trigger] ray_sq(ai, sf as int, sr as int, j) == u by {
                if bit_at(result, u) {
                    let j = choose|j: int| 1 <= j <= k - 1 && #[trigger] ray_sq(ai, sf as int, sr as int, j) == u;
                    assert(1 <= j <= k && ray_sq(ai, sf as int, sr as int, j) == u);
                }
                if exists|j: int| 1 <= j <= k && #[trigger] ray_sq(ai, sf as int, sr as int, j) == u {
                    let j = choose|j: int| 1 <= j <= k && #[trigger] ray_sq(ai, sf as int, sr as int, j) == u;
                    if j < k {
                        assert(bit_at(result, u));
                    }
                }
            }
        }
        result = result | (1u64 << t);
    }
    result
}

/// The table of one kind of slider: per square, its relevant mask, and per
/// compacted occupancy of that mask the squares the slider reaches.
pub open spec fn slider_table_ok(rel: Seq<Bitboard>, att: Seq<Vec<Bitboard>>, diagonal: bool) -> bool {
    &&& rel.len() == 64
    &&& att.len() == 64
    &&& forall|s: int, t: int|
        0 <= s < 64 ==> (#[trigger] bit_at(rel[s].0, t) <==> relevant(s, diagonal, t))
    &&& forall|s: int| 0 <= s < 64 ==> #[trigger] att[s]@.len() == compact(rel[s].0, rel[s].0) + 1
    &&& forall|s: int, x: int, t: int|
        0 <= s < 64 && 0 <= x < att[s]@.len() ==> (#[trigger] bit_at(att[s]@[x].0, t)
            <==> slider_reaches(s, unfold(x as u64, rel[s].0), diagonal, t))
}

/// The attack tables, built once and shared read-only.
pub struct AttackTables {
    pub knight: Vec<Bitboard>,
    pub plus_mask: Vec<Bitboard>,
    pub x_mask: Vec<Bitboard>,
    pub white_pawn: Vec<Bitboard>,
    pub black_pawn: Vec<Bitboard>,
    pub plus_relevant: Vec<Bitboard>,
    pub x_relevant: Vec<Bitboard>,
    pub plus_attacks: Vec<Vec<Bitboard>>,
    pub x_attacks: Vec<Vec<Bitboard>>,
    pub between: Vec<Vec<Bitboard>>,
}

impl AttackTables {
    /// Every entry is what its definition says: knight and pawn patterns,
    /// relevant masks, the slider tables over every unfolded occupancy, and
    /// the squares between every pair.
    pub open spec fn wf(&self) -> bool {
        &&& self.knight@.len() == 64
        &&& self.plus_mask@.len() == 64
        &&& self.x_mask@.len() == 64
        &&& forall|s: int, t: int|
            0 <= s < 64 ==> (#[trigger] bit_at(self.plus_mask@[s].0, t) <==> (t == s || slider_reaches(s, 0, false, t)))
        &&& forall|s: int, t: int|
            0 <= s < 64 ==> (#[trigger] bit_at(self.x_mask@[s].0, t) <==> (t == s || slider_reaches(s, 0, true, t)))
        &&& self.white_pawn@.len() == 64
        &&& self.black_pawn@.len() == 64
        &&& self.between@.len() == 64
        &&& forall|s: int, t: int|
            0 <= s < 64 ==> (#[trigger] bit_at(self.knight@[s].0, t) <==> knight_attack(s, t))
        &&& forall|s: int, t: int|
            0 <= s < 64 ==> (#[trigger] bit_at(self.white_pawn@[s].0, t) <==> pawn_attack(true, s, t))
        &&& forall|s: int, t: int|
            0 <= s < 64 ==> (#[trigger] bit_at(self.black_pawn@[s].0, t) <==> pawn_attack(false, s, t))
        &&& slider_table_ok(self.plus_relevant@, self.plus_attacks@, false)
        &&& slider_table_ok(self.x_relevant@, self.x_attacks@, true)
        &&& forall|a: int| 0 <= a < 64 ==> #[trigger] self.between@[a]@.len() == 64
        &&& forall|a: int, b: int, t: int|
            0 <= a < 64 && 0 <= b < 64 ==> (#[trigger] bit_at(self.between@[a]@[b].0, t) <==> between(a, b, t))
    }

    /// Builds every table.
    pub fn new() -> (r: AttackTables)
        ensures
            r.wf(),
    {
        let mut knight: Vec<Bitboard> = Vec::new();
        let mut plus_mask: Vec<Bitboard> = Vec::new();
        let mut x_mask: Vec<Bitboard> = Vec::new();
        let mut white_pawn: Vec<Bitboard> = Vec::new();
        let mut black_pawn: Vec<Bitboard> = Vec::new();
        let mut between_rows: Vec<Vec<Bitboard>> = Vec::new();
        let mut s: usize = 0;
        while s < 64
            invariant
                s <= 64,
                knight@.len() == s,
                plus_mask@.len() == s,
                x_mask@.len() == s,
                forall|q: int, t: int|
                    0 <= q < s ==> (#[trigger] bit_at(plus_mask@[q].0, t) <==> (t == q || slider_reaches(q, 0, false, t))),
                forall|q: int, t: int|
                    0 <= q < s ==> (#[trigger] bit_at(x_mask@[q].0, t) <==> (t == q || slider_reaches(q, 0, true, t))),
                white_pawn@.len() == s,
                black_pawn@.len() == s,
                between_rows@.len() == s,
                forall|q: int, t: int|
                    0 <= q < s ==> (#[trigger] bit_at(knight@[q].0, t) <==> knight_attack(q, t)),
                forall|q: int, t: int|
                    0 <= q < s ==> (#[trigger] bit_at(white_pawn@[q].0, t) <==> pawn_attack(true, q, t)),
                forall|q: int, t: int|
                    0 <= q < s ==> (#[trigger] bit_at(black_pawn@[q].0, t) <==> pawn_attack(false, q, t)),
                forall|a: int| 0 <= a < s ==> #[trigger] between_rows@[a]@.len() == 64,
                forall|a: int, b: int, t: int|
                    0 <= a < s && 0 <= b < 64 ==> (#[trigger] bit_at(between_rows@[a]@[b].0, t) <==> between(a, b, t)),
            decreases 64 - s,
        {
            knight.push(Bitboard(knight_mask(s)));
            plus_mask.push(Bitboard(line_mask(s, false)));
            x_mask.push(Bitboard(line_mask(s, true)));
            white_pawn.push(Bitboard(pawn_mask(true, s)));
            black_pawn.push(Bitboard(pawn_mask(false, s)));
            let mut row: Vec<Bitboard> = Vec::new();
            let mut b: usize = 0;
            while b < 64
                invariant
                    s < 64,
                    b <= 64,
                    row@.len() == b,
                    forall|c: int, t: int|
                        0 <= c < b ==> (#[trigger] bit_at(row@[c].0, t) <==> between(s as int, c, t)),
                decreases 64 - b,
            {
                row.push(Bitboard(between_squares(s, b)));
                b = b + 1;
            }
            between_rows.push(row);
            s = s + 1;
        }
        let (plus_relevant, plus_attacks) = slider_table(false);
        let (x_relevant, x_attacks) = slider_table(true);
        AttackTables {
            knight,
            plus_mask,
            x_mask,
            white_pawn,
            black_pawn,
            plus_relevant,
            x_relevant,
            plus_attacks,
            x_attacks,
            between: between_rows,
        }
    }
}

/// The lines through `s` for one kind of slider, `s` included.
fn line_mask(s: usize, diagonal: bool) -> (r: u64)
    requires
        s < 64,
    ensures
        forall|t: int| #[trigger] bit_at(r, t) <==> (t == s || slider_reaches(s as int, 0, diagonal, t)),
{
    let rays = slider_attacks(s, 0, diagonal);
    proof {
        lemma_bits(rays, single(s as int), s as int);
    }
    rays | (1u64 << (s as u64))
}

/// The relevant mask of `s` and, for each compacted occupancy of it, the
/// squares a slider on `s` reaches over the unfolded occupancy.
fn slider_row(s: usize, diagonal: bool) -> (r: (Bitboard, Vec<Bitboard>))
    requires
        s < 64,
    ensures
        forall|t: int| #[trigger] bit_at(r.0.0, t) <==> relevant(s as int, diagonal, t),
        r.1@.len() == compact(r.0.0, r.0.0) + 1,
        forall|x: int, t: int|
            0 <= x < r.1@.len() ==> (#[trigger] bit_at(r.1@[x].0, t) <==> slider_reaches(
                s as int,
                unfold(x as u64, r.0.0),
                diagonal,
                t,
            )),
{
    let rel = Bitboard(relevant_mask(s, diagonal));
    let max = rel.const_pext(rel);
    let mut row: Vec<Bitboard> = Vec::new();
    let mut x: u64 = 0;
    let mut done = false;
    while !done
        invariant
            s < 64,
            max == compact(rel.0, rel.0),
            x <= max,
            !done ==> row@.len() == x,
            done ==> row@.len() == max + 1,
            forall|y: int, t: int|
                0 <= y < row@.len() ==> (#[trigger] bit_at(row@[y].0, t) <==> slider_reaches(
                    s as int,
                    unfold(y as u64, rel.0),
                    diagonal,
                    t,
                )),
        decreases max - x + if done {
            0int
        } else {
            1int
        },
    {
        let occ = unfold_occupancy(x, rel);
        row.push(Bitboard(slider_attacks(s, occ.0, diagonal)));
        if x == max {
            done = true;
        } else {
            x = x + 1;
        }
    }
    (rel, row)
}

fn slider_table(diagonal: bool) -> (r: (Vec<Bitboard>, Vec<Vec<Bitboard>>))
    ensures
        slider_table_ok(r.0@, r.1@, diagonal),
{
    let mut rels: Vec<Bitboard> = Vec::new();
    let mut rows: Vec<Vec<Bitboard>> = Vec::new();
    let mut s: usize = 0;
    while s < 64
        invariant
            s <= 64,
            rels@.len() == s,
            rows@.len() == s,
            forall|q: int, t: int|
                0 <= q < s ==> (#[trigger] bit_at(rels@[q].0, t) <==> relevant(q, diagonal, t)),
            forall|q: int| 0 <= q < s ==> #[trigger] rows@[q]@.len() == compact(rels@[q].0, rels@[q].0) + 1,
            forall|q: int, x: int, t: int|
                0 <= q < s && 0 <= x < rows@[q]@.len() ==> (#[trigger] bit_at(rows@[q]@[x].0, t)
                    <==> slider_reaches(q, unfold(x as u64, rels@[q].0), diagonal, t)),
        decreases 64 - s,
    {
        let (rel, row) = slider_row(s, diagonal);
        rels.push(rel);
        rows.push(row);
        s = s + 1;
    }
    (rels, rows)
}

proof fn lemma_ray_relevant(s: int, df: int, dr: int, occ: u64, rel: u64, t: int)
    requires
        0 <= s < 64,
        is_dir(df, dr),
        forall|u: int| ray_inner(s, df, dr, u) ==> #[trigger] bit_at(rel, u),
    ensures
        ray_reaches(s, df, dr, occ & rel, t) <==> ray_reaches(s, df, dr, occ, t),
{
    lemma_square_bounds(s);
    lemma_bits(occ, rel, 0);
    if ray_reaches(s, df, dr, occ, t) {
        let k = choose|k: int|
            k >= 1 && ray_ok(s, df, dr, k) && #[trigger] ray_sq(s, df, dr, k) == t && forall|j: int|
                1 <= j < k ==> !bit_at(occ, #[trigger] ray_sq(s, df, dr, j));
        assert forall|j: int| 1 <= j < k implies !bit_at(occ & rel, #[trigger] ray_sq(s, df, dr, j)) by {
        }
    }
    if ray_reaches(s, df, dr, occ & rel, t) {
        let k = choose|k: int|
            k >= 1 && ray_ok(s, df, dr, k) && #[trigger] ray_sq(s, df, dr, k) == t && forall|j: int|
                1 <= j < k ==> !bit_at(occ & rel, #[trigger] ray_sq(s, df, dr, j));
        assert forall|j: int| 1 <= j < k implies !bit_at(occ, #[trigger] ray_sq(s, df, dr, j)) by {
            assert(ray_ok(s, df, dr, j + 1));
            assert(ray_inner(s, df, dr, ray_sq(s, df, dr, j)));
            assert(bit_at(rel, ray_sq(s, df, dr, j)));
        }
    }
}

/// A slider reaches the same squares over any occupancy as over its
/// relevant squares alone.
pub proof fn lemma_slider_relevant(s: int, occ: u64, rel: u64, diagonal: bool, t: int)
    requires
        0 <= s < 64,
        forall|u: int| #[trigger] bit_at(rel, u) <==> relevant(s, diagonal, u),
    ensures
        slider_reaches(s, occ & rel, diagonal, t) <==> slider_reaches(s, occ, diagonal, t),
{
    if diagonal {
        lemma_ray_relevant(s, 1, 1, occ, rel, t);
        lemma_ray_relevant(s, 1, -1, occ, rel, t);
        lemma_ray_relevant(s, -1, 1, occ, rel, t);
        lemma_ray_relevant(s, -1, -1, occ, rel, t);
    } else {
        lemma_ray_relevant(s, 1, 0, occ, rel, t);
        lemma_ray_relevant(s, -1, 0, occ, rel, t);
        lemma_ray_relevant(s, 0, 1, occ, rel, t);
        lemma_ray_relevant(s, 0, -1, occ, rel, t);
    }
}

/// Looking a slider up by the compaction of the real occupancy through the
/// square's relevant mask gives exactly the squares it reaches over that
/// occupancy.
pub proof fn lemma_lookup(rel: Seq<Bitboard>, att: Seq<Vec<Bitboard>>, diagonal: bool, s: int, occ: u64)
    requires
        slider_table_ok(rel, att, diagonal),
        0 <= s < 64,
    ensures
        compact(occ, rel[s].0) < att[s]@.len(),
        forall|t: int|
            #[trigger] bit_at(att[s]@[compact(occ, rel[s].0) as int].0, t) <==> slider_reaches(
                s,
                occ,
                diagonal,
                t,
            ),
{
    let m = rel[s].0;
    lemma_compact_le(occ, m);
    lemma_unfold_compact(occ, m);
    assert forall|u: int| #[trigger] bit_at(m, u) <==> relevant(s, diagonal, u) by {
    }
    assert forall|t: int|
        #[trigger] bit_at(att[s]@[compact(occ, m) as int].0, t) <==> slider_reaches(s, occ, diagonal, t) by {
        lemma_slider_relevant(s, occ, m, diagonal, t);
    }
}

} // verus!
