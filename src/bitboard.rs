use vstd::prelude::*;
use vstd::std_specs::bits::*;

verus! {

/// Whether square `i` (0..64) is set in the 64-bit set `x`.
pub open spec fn bit_at(x: u64, i: int) -> bool {
    0 <= i < 64 && (x >> (i as u64)) & 1u64 == 1u64
}

/// The one-square set `{i}`.
pub open spec fn single(i: int) -> u64 {
    1u64 << (i as u64)
}

/// Number of set squares of `x` below `n`.
pub open spec fn count_below(x: u64, n: int) -> nat
    decreases n,
{
    if n <= 0 {
        0
    } else {
        count_below(x, n - 1) + if bit_at(x, n - 1) { 1nat } else { 0nat }
    }
}

/// Number of set squares of `x`.
pub open spec fn popcount(x: u64) -> nat {
    count_below(x, 64)
}

/// Compaction of `v` through the selector `m`, over the squares below `n`:
/// the square holding the k-th set square of `m` becomes bit k.
pub open spec fn compact_below(v: u64, m: u64, n: int) -> u64
    decreases n,
{
    if n <= 0 {
        0
    } else {
        let prev = compact_below(v, m, n - 1);
        if bit_at(m, n - 1) && bit_at(v, n - 1) {
            prev | single(count_below(m, n - 1) as int)
        } else {
            prev
        }
    }
}

/// Compaction of `v` through the selector `m`.
pub open spec fn compact(v: u64, m: u64) -> u64 {
    compact_below(v, m, 64)
}

/// Unfolding of `x` onto the selector `m`, over the squares below `n`:
/// bit k of `x` lands on the k-th set square of `m`.
pub open spec fn unfold_below(x: u64, m: u64, n: int) -> u64
    decreases n,
{
    if n <= 0 {
        0
    } else {
        let prev = unfold_below(x, m, n - 1);
        if bit_at(m, n - 1) && bit_at(x, count_below(m, n - 1) as int) {
            prev | single(n - 1)
        } else {
            prev
        }
    }
}

/// Unfolding of `x` onto the selector `m`.
pub open spec fn unfold(x: u64, m: u64) -> u64 {
    unfold_below(x, m, 64)
}

pub proof fn lemma_bit_or(a: u64, b: u64, i: u64) by (bit_vector)
    requires
        i < 64,
    ensures
        ((a | b) >> i) & 1 == 1 <==> ((a >> i) & 1 == 1 || (b >> i) & 1 == 1),
{
}

pub proof fn lemma_bit_and(a: u64, b: u64, i: u64) by (bit_vector)
    requires
        i < 64,
    ensures
        ((a & b) >> i) & 1 == 1 <==> ((a >> i) & 1 == 1 && (b >> i) & 1 == 1),
{
}

pub proof fn lemma_bit_xor(a: u64, b: u64, i: u64) by (bit_vector)
    requires
        i < 64,
    ensures
        ((a ^ b) >> i) & 1 == 1 <==> (((a >> i) & 1 == 1) != ((b >> i) & 1 == 1)),
{
}

pub proof fn lemma_bit_not(a: u64, i: u64) by (bit_vector)
    requires
        i < 64,
    ensures
        ((!a) >> i) & 1 == 1 <==> !((a >> i) & 1 == 1),
{
}

pub proof fn lemma_bit_single(s: u64, i: u64) by (bit_vector)
    requires
        i < 64,
        s < 64,
    ensures
        ((1u64 << s) >> i) & 1 == 1 <==> s == i,
{
}

pub proof fn lemma_bit_zero(i: u64) by (bit_vector)
    ensures
        !((0u64 >> i) & 1 == 1),
{
}

/// Squares of `a | b`, `a & b`, `a ^ b`, `!a`, `{s}` and `0`, square by square.
pub proof fn lemma_bits(a: u64, b: u64, s: int)
    requires
        0 <= s < 64,
    ensures
        forall|i: int| #[trigger] bit_at(a | b, i) <==> (bit_at(a, i) || bit_at(b, i)),
        forall|i: int| #[trigger] bit_at(a & b, i) <==> (bit_at(a, i) && bit_at(b, i)),
        forall|i: int| #[trigger] bit_at(a ^ b, i) <==> (bit_at(a, i) != bit_at(b, i)),
        forall|i: int| #[trigger] bit_at(!a, i) <==> (0 <= i < 64 && !bit_at(a, i)),
        forall|i: int| #[trigger] bit_at(single(s), i) <==> i == s,
        forall|i: int| !#[trigger] bit_at(0u64, i),
{
    assert forall|i: int| #[trigger] bit_at(a | b, i) <==> (bit_at(a, i) || bit_at(b, i)) by {
        if 0 <= i < 64 {
            lemma_bit_or(a, b, i as u64);
        }
    }
    assert forall|i: int| #[trigger] bit_at(a & b, i) <==> (bit_at(a, i) && bit_at(b, i)) by {
        if 0 <= i < 64 {
            lemma_bit_and(a, b, i as u64);
        }
    }
    assert forall|i: int| #[trigger] bit_at(a ^ b, i) <==> (bit_at(a, i) != bit_at(b, i)) by {
        if 0 <= i < 64 {
            lemma_bit_xor(a, b, i as u64);
        }
    }
    assert forall|i: int| #[trigger] bit_at(!a, i) <==> (0 <= i < 64 && !bit_at(a, i)) by {
        if 0 <= i < 64 {
            lemma_bit_not(a, i as u64);
        }
    }
    assert forall|i: int| #[trigger] bit_at(single(s), i) <==> i == s by {
        if 0 <= i < 64 {
            lemma_bit_single(s as u64, i as u64);
        }
    }
    assert forall|i: int| !#[trigger] bit_at(0u64, i) by {
        lemma_bit_zero(i as u64);
    }
}

proof fn lemma_shr_step(a: u64, b: u64, n: u64) by (bit_vector)
    requires
        0 < n <= 64,
        a >> n == b >> n,
        (a >> ((n - 1) as u64)) & 1 == (b >> ((n - 1) as u64)) & 1,
    ensures
        a >> ((n - 1) as u64) == b >> ((n - 1) as u64),
{
}

proof fn lemma_shr_all(a: u64) by (bit_vector)
    ensures
        a >> 64u64 == 0,
        a >> 0u64 == a,
{
}

proof fn lemma_bit_is_zero_or_one(a: u64, i: u64) by (bit_vector)
    ensures
        (a >> i) & 1 == 1 || (a >> i) & 1 == 0,
{
}

proof fn lemma_bits_ext_from(a: u64, b: u64, n: u64)
    requires
        n <= 64,
        forall|i: int| 0 <= i < 64 ==> #[trigger] bit_at(a, i) == bit_at(b, i),
    ensures
        a >> n == b >> n,
    decreases 64 - n,
{
    if n == 64 {
        lemma_shr_all(a);
        lemma_shr_all(b);
    } else {
        lemma_bits_ext_from(a, b, (n + 1) as u64);
        assert(bit_at(a, n as int) == bit_at(b, n as int));
        lemma_bit_is_zero_or_one(a, n);
        lemma_bit_is_zero_or_one(b, n);
        lemma_shr_step(a, b, (n + 1) as u64);
    }
}

/// Two 64-bit sets with the same squares are equal.
pub proof fn lemma_bits_ext(a: u64, b: u64)
    requires
        forall|i: int| 0 <= i < 64 ==> #[trigger] bit_at(a, i) == bit_at(b, i),
    ensures
        a == b,
{
    lemma_bits_ext_from(a, b, 0);
    lemma_shr_all(a);
    lemma_shr_all(b);
}

/// A 64-bit set of squares, square `file + 8 * rank` at bit `file + 8 * rank`.
#[derive(Clone, Copy, PartialEq, Eq, Structural, Debug)]
pub struct Bitboard(pub u64);

impl Bitboard {
    /// Whether square `i` is in the set.
    pub open spec fn has(self, i: int) -> bool {
        bit_at(self.0, i)
    }

    pub fn lsh(self, shift: usize) -> (r: Bitboard)
        requires
            shift < 64,
        ensures
            r.0 == self.0 << (shift as u64),
    {
        Bitboard(self.0 << (shift as u64))
    }

    pub fn rsh(self, shift: usize) -> (r: Bitboard)
        requires
            shift < 64,
        ensures
            r.0 == self.0 >> (shift as u64),
    {
        Bitboard(self.0 >> (shift as u64))
    }

    pub fn and(self, rhs: Bitboard) -> (r: Bitboard)
        ensures
            r.0 == self.0 & rhs.0,
            forall|i: int| #[trigger] bit_at(r.0, i) <==> bit_at(self.0, i) && bit_at(rhs.0, i),
    {
        proof {
            lemma_bits(self.0, rhs.0, 0);
        }
        Bitboard(self.0 & rhs.0)
    }

    pub fn or(self, rhs: Bitboard) -> (r: Bitboard)
        ensures
            r.0 == self.0 | rhs.0,
            forall|i: int| #[trigger] bit_at(r.0, i) <==> bit_at(self.0, i) || bit_at(rhs.0, i),
    {
        proof {
            lemma_bits(self.0, rhs.0, 0);
        }
        Bitboard(self.0 | rhs.0)
    }

    pub fn set_bit(&mut self, index: usize)
        requires
            index < 64,
        ensures
            final(self).0 == old(self).0 | single(index as int),
            forall|i: int| #[trigger] bit_at(final(self).0, i) <==> bit_at(old(self).0, i) || i == index,
    {
        proof {
            lemma_bits(self.0, single(index as int), index as int);
        }
        self.0 = self.0 | (1u64 << (index as u64));
    }

    pub fn clear_bit(&mut self, index: usize)
        requires
            index < 64,
        ensures
            final(self).0 == old(self).0 & !single(index as int),
            forall|i: int| #[trigger] bit_at(final(self).0, i) <==> bit_at(old(self).0, i) && i != index,
    {
        proof {
            lemma_bits(self.0, !single(index as int), index as int);
            lemma_bits(single(index as int), 0, index as int);
        }
        self.0 = self.0 & !(1u64 << (index as u64));
    }

    /// Index of the lowest set square; 64 for the empty set.
    pub fn tzcnt(self) -> (r: usize)
        ensures
            r <= 64,
            self.0 == 0 <==> r == 64,
            r < 64 ==> bit_at(self.0, r as int),
            forall|j: int| 0 <= j < r ==> !#[trigger] bit_at(self.0, j),
    {
        proof {
            axiom_u64_trailing_zeros(self.0);
        }
        let t = self.0.trailing_zeros();
        proof {
            assert forall|j: int| 0 <= j < t implies !#[trigger] bit_at(self.0, j) by {
                let ju = j as u64;
                assert((self.0 >> ju) & 1u64 == 0u64);
            }
        }
        t as usize
    }

    /// The set without its lowest square.
    pub fn blsr(self) -> (r: Bitboard)
        ensures
            r.0 == if self.0 == 0 { 0 } else { self.0 & ((self.0 - 1) as u64) },
            forall|i: int|
                #[trigger] bit_at(r.0, i) <==> bit_at(self.0, i) && exists|j: int|
                    0 <= j < i && #[trigger] bit_at(self.0, j),
    {
        let r = if self.0 == 0 {
            Bitboard(0)
        } else {
            Bitboard(self.0 & (self.0 - 1))
        };
        proof {
            lemma_blsr_bits(self.0);
            lemma_bits(0, 0, 0);
            assert forall|i: int|
                #[trigger] bit_at(r.0, i) <==> bit_at(self.0, i) && exists|j: int|
                    0 <= j < i && #[trigger] bit_at(self.0, j) by {
                if self.0 == 0 {
                    assert(!bit_at(0u64, i));
                    assert(!bit_at(r.0, i));
                    assert(!bit_at(self.0, i));
                } else {
                    assert(r.0 == self.0 & ((self.0 - 1) as u64));
                    assert(bit_at(self.0 & ((self.0 - 1) as u64), i) <==> bit_at(self.0, i) && exists|j: int|
                        0 <= j < i && #[trigger] bit_at(self.0, j));
                    if exists|j: int| 0 <= j < i && #[trigger] bit_at(self.0, j) {
                        let j = choose|j: int| 0 <= j < i && #[trigger] bit_at(self.0, j);
                        assert(bit_at(self.0, j));
                    }
                }
            }
        }
        r
    }

    pub fn has_entry_at(&self, index: usize) -> (r: bool)
        requires
            index < 64,
        ensures
            r == bit_at(self.0, index as int),
    {
        proof {
            lemma_bits(self.0, single(index as int), index as int);
            lemma_single_and(self.0, index as u64);
        }
        (self.0 & (1u64 << (index as u64))) != 0u64
    }

    pub fn has_bits(self) -> (r: bool)
        ensures
            r == (self.0 != 0),
            !r ==> forall|i: int| !#[trigger] bit_at(self.0, i),
    {
        proof {
            lemma_bits(self.0, 0, 0);
        }
        self.0 != 0
    }

    pub fn neg(self) -> (r: Bitboard)
        ensures
            r.0 == !self.0,
            forall|i: int| #[trigger] bit_at(r.0, i) <==> 0 <= i < 64 && !bit_at(self.0, i),
    {
        proof {
            lemma_bits(self.0, 0, 0);
        }
        Bitboard(!self.0)
    }

    pub fn number_of_set_bits(self) -> (r: usize)
        ensures
            r == popcount(self.0),
    {
        let mut n: usize = 0;
        let mut i: usize = 0;
        while i < 64
            invariant
                i <= 64,
                n == count_below(self.0, i as int),
                n <= i,
            decreases 64 - i,
        {
            if self.has_entry_at(i) {
                n = n + 1;
            }
            i = i + 1;
        }
        n
    }

    /// Gathers the squares of `self` selected by `mask` into the low bits of
    /// the result, in increasing square order.
    pub fn const_pext(self, mask: Bitboard) -> (r: u64)
        ensures
            r == compact(self.0, mask.0),
    {
        let mut k: usize = 0;
        let mut m: usize = 0;
        let mut out: u64 = 0;
        while m < 64
            invariant
                m <= 64,
                k == count_below(mask.0, m as int),
                k <= m,
                out == compact_below(self.0, mask.0, m as int),
            decreases 64 - m,
        {
            if mask.has_entry_at(m) {
                if self.has_entry_at(m) {
                    out = out | (1u64 << (k as u64));
                }
                k = k + 1;
            }
            m = m + 1;
        }
        out
    }
}

proof fn lemma_single_and(a: u64, i: u64) by (bit_vector)
    requires
        i < 64,
    ensures
        (a & (1u64 << i)) != 0 <==> (a >> i) & 1 == 1,
{
}

proof fn lemma_blsr_low(a: u64, i: u64) by (bit_vector)
    requires
        i < 64,
        a != 0,
    ensures
        ((a & ((a - 1) as u64)) >> i) & 1 == 1 <==> ((a >> i) & 1 == 1 && (a << ((64 - i) as u64)) != 0),
{
}

proof fn lemma_low_part(a: u64, i: u64) by (bit_vector)
    requires
        i < 64,
    ensures
        (a << ((64 - i) as u64)) != 0 <==> (i > 0 && (a & (((1u64 << i) - 1) as u64)) != 0),
{
}

proof fn lemma_blsr_bits(a: u64)
    ensures
        forall|i: int|
            #[trigger] bit_at(a & ((a - 1) as u64), i) <==> bit_at(a, i) && exists|j: int|
                0 <= j < i && #[trigger] bit_at(a, j),
{
    assert forall|i: int|
        #[trigger] bit_at(a & ((a - 1) as u64), i) <==> bit_at(a, i) && exists|j: int|
            0 <= j < i && #[trigger] bit_at(a, j) by {
        if a == 0 {
            assert(a & ((a - 1) as u64) == 0) by (bit_vector)
                requires
                    a == 0,
            ;
            lemma_bits(a, a, 0);
        } else if 0 <= i < 64 {
            let iu = i as u64;
            lemma_blsr_low(a, iu);
            lemma_low_part(a, iu);
            if exists|j: int| 0 <= j < i && #[trigger] bit_at(a, j) {
                let j = choose|j: int| 0 <= j < i && #[trigger] bit_at(a, j);
                lemma_low_mask_bit(a, iu, j as u64);
            } else {
                lemma_low_mask_zero(a, iu);
            }
        }
    }
}

proof fn lemma_low_mask_bit(a: u64, i: u64, j: u64) by (bit_vector)
    requires
        j < i < 64,
        (a >> j) & 1 == 1,
    ensures
        (a & (((1u64 << i) - 1) as u64)) != 0,
{
}

proof fn lemma_low_mask_zero(a: u64, i: u64)
    requires
        i < 64,
        forall|j: int| 0 <= j < i ==> #[trigger] bit_at(a, j) == false,
    ensures
        (a & (((1u64 << i) - 1) as u64)) == 0,
{
    assert forall|j: int| 0 <= j < 64 implies #[trigger] bit_at(a & (((1u64 << i) - 1) as u64), j) == bit_at(
        0u64,
        j,
    ) by {
        lemma_bits(a, (((1u64 << i) - 1) as u64), 0);
        lemma_bits(0, 0, 0);
        lemma_below_mask(i, j as u64);
    }
    lemma_bits_ext(a & (((1u64 << i) - 1) as u64), 0);
}

proof fn lemma_below_mask(i: u64, j: u64) by (bit_vector)
    requires
        i < 64,
        j < 64,
    ensures
        ((((1u64 << i) - 1) as u64) >> j) & 1 == 1 <==> j < i,
{
}

proof fn lemma_count_below_monotone(m: u64, i: int, j: int)
    requires
        0 <= i <= j,
    ensures
        count_below(m, i) + (if bit_at(m, i) && i < j { 1nat } else { 0nat }) <= count_below(m, j),
    decreases j - i,
{
    if i < j {
        lemma_count_below_monotone(m, i, j - 1);
    }
}

proof fn lemma_count_below_bound(m: u64, n: int)
    requires
        0 <= n,
    ensures
        count_below(m, n) <= n,
    decreases n,
{
    if n > 0 {
        lemma_count_below_bound(m, n - 1);
    }
}

/// The squares of an unfolding: square `i` is set exactly when it is in the
/// selector and the bit of its rank among the selector's squares is set.
pub proof fn lemma_unfold_bits(x: u64, m: u64, n: int)
    requires
        0 <= n <= 64,
    ensures
        forall|i: int|
            #[trigger] bit_at(unfold_below(x, m, n), i) <==> (0 <= i < n && bit_at(m, i) && bit_at(
                x,
                count_below(m, i) as int,
            )),
    decreases n,
{
    if n > 0 {
        lemma_unfold_bits(x, m, n - 1);
        let prev = unfold_below(x, m, n - 1);
        lemma_bits(prev, single(n - 1), n - 1);
    } else {
        lemma_bits(0, 0, 0);
    }
}

/// The squares of a compaction below `n`: the bit at the rank of a selected
/// square `i < n` is that square of `v`, and no bit at or above the number
/// of selected squares is set.
pub proof fn lemma_compact_bits(v: u64, m: u64, n: int)
    requires
        0 <= n <= 64,
    ensures
        forall|i: int|
            0 <= i < n && bit_at(m, i) ==> (#[trigger] bit_at(
                compact_below(v, m, n),
                count_below(m, i) as int,
            ) <==> bit_at(v, i)),
        forall|k: int| k >= count_below(m, n) ==> !#[trigger] bit_at(compact_below(v, m, n), k),
    decreases n,
{
    if n > 0 {
        lemma_compact_bits(v, m, n - 1);
        let prev = compact_below(v, m, n - 1);
        let c = count_below(m, n - 1) as int;
        lemma_count_below_bound(m, n - 1);
        lemma_bits(prev, single(c), c);
        assert forall|i: int|
            0 <= i < n && bit_at(m, i) implies (#[trigger] bit_at(
                compact_below(v, m, n),
                count_below(m, i) as int,
            ) <==> bit_at(v, i)) by {
            if i < n - 1 {
                lemma_count_below_monotone(m, i, n - 1);
            }
        }
    } else {
        lemma_bits(0, 0, 0);
    }
}

/// Unfolding a compaction through the same selector gives back the selected
/// squares of the value.
pub proof fn lemma_unfold_compact(v: u64, m: u64)
    ensures
        unfold(compact(v, m), m) == v & m,
{
    lemma_unfold_bits(compact(v, m), m, 64);
    lemma_compact_bits(v, m, 64);
    lemma_bits(v, m, 0);
    assert forall|i: int| 0 <= i < 64 implies #[trigger] bit_at(unfold(compact(v, m), m), i) == bit_at(
        v & m,
        i,
    ) by {
        if bit_at(m, i) {
            assert(bit_at(compact(v, m), count_below(m, i) as int) <==> bit_at(v, i));
        }
    }
    lemma_bits_ext(unfold(compact(v, m), m), v & m);
}

/// Distributes the low bits of `index` onto the squares of `mask`, in
/// increasing square order: the inverse of `const_pext`.
pub fn unfold_occupancy(index: u64, mask: Bitboard) -> (r: Bitboard)
    ensures
        r.0 == unfold(index, mask.0),
{
    let mut k: u64 = 0;
    let mut m: usize = 0;
    let mut out: u64 = 0;
    while m < 64
        invariant
            m <= 64,
            k == count_below(mask.0, m as int),
            k <= m,
            out == unfold_below(index, mask.0, m as int),
        decreases 64 - m,
    {
        if mask.has_entry_at(m) {
            if (index >> k) & 1 == 1 {
                out = out | (1u64 << (m as u64));
            }
            k = k + 1;
        }
        m = m + 1;
    }
    Bitboard(out)
}

proof fn lemma_count_below_onto(m: u64, n: int, k: int)
    requires
        0 <= n,
        0 <= k < count_below(m, n),
    ensures
        exists|i: int| 0 <= i < n && bit_at(m, i) && #[trigger] count_below(m, i) == k,
    decreases n,
{
    if k < count_below(m, n - 1) {
        lemma_count_below_onto(m, n - 1, k);
        let i = choose|i: int| 0 <= i < n - 1 && bit_at(m, i) && #[trigger] count_below(m, i) == k;
        assert(0 <= i < n && bit_at(m, i) && count_below(m, i) == k);
    } else {
        assert(bit_at(m, n - 1) && count_below(m, n - 1) == k);
    }
}

proof fn lemma_subset_le(x: u64, y: u64)
    by (bit_vector)
    requires
        x & !y == 0,
    ensures
        x <= y,
{
}

/// Every compaction through `m` is at most the compaction of `m` itself,
/// whose set bits are exactly the low `popcount(m)` bits.
pub proof fn lemma_compact_le(v: u64, m: u64)
    ensures
        compact(v, m) <= compact(m, m),
{
    lemma_compact_bits(v, m, 64);
    lemma_compact_bits(m, m, 64);
    let x = compact(v, m);
    let y = compact(m, m);
    lemma_bits(x, !y, 0);
    lemma_bits(y, 0, 0);
    lemma_bits(0, 0, 0);
    assert forall|k: int| 0 <= k < 64 implies #[trigger] bit_at(x & !y, k) == bit_at(0u64, k) by {
        if bit_at(x, k) {
            if k < count_below(m, 64) {
                lemma_count_below_onto(m, 64, k);
                let i = choose|i: int| 0 <= i < 64 && bit_at(m, i) && #[trigger] count_below(m, i) == k;
                assert(bit_at(y, count_below(m, i) as int) <==> bit_at(m, i));
            }
        }
    }
    lemma_bits_ext(x & !y, 0);
    lemma_subset_le(x, y);
}

/// Compacting an unfolding through the same selector gives back the value,
/// when the value has no bit at or above the selector's number of squares.
pub proof fn lemma_compact_unfold(x: u64, m: u64)
    requires
        forall|k: int| popcount(m) <= k ==> !#[trigger] bit_at(x, k),
    ensures
        compact(unfold(x, m), m) == x,
{
    let u = unfold(x, m);
    lemma_unfold_bits(x, m, 64);
    lemma_compact_bits(u, m, 64);
    assert forall|k: int| 0 <= k < 64 implies #[trigger] bit_at(compact(u, m), k) == bit_at(x, k) by {
        if k < count_below(m, 64) {
            lemma_count_below_onto(m, 64, k);
            let i = choose|i: int| 0 <= i < 64 && bit_at(m, i) && #[trigger] count_below(m, i) == k;
            assert(bit_at(compact(u, m), count_below(m, i) as int) <==> bit_at(u, i));
        }
    }
    lemma_bits_ext(compact(u, m), x);
}

} // verus!
