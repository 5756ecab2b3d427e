//! Integer core of the Sobol quasi-random sequence, with Joe-Kuo direction
//! numbers: the 32-bit states whose scaling by 2^-32 gives the points.

use vstd::prelude::*;

verus! {

/// Number of dimensions supported: the van der Corput dimension plus one per
/// row of the direction-number table.
pub const MAX_DIM: usize = 30;

/// Bits per direction number.
pub const BITS: u32 = 32;

/// Joe-Kuo direction-number row `r` (dimension `r + 2`): degree `s`,
/// polynomial coefficient `a`, initial numbers `m[0..s]`.
pub open spec fn jk_row(r: int) -> (u32, u32, Seq<u32>) {
    if r == 0 { (1, 0, seq![1]) }
    else if r == 1 { (2, 1, seq![1, 1]) }
    else if r == 2 { (3, 1, seq![1, 1, 1]) }
    else if r == 3 { (3, 2, seq![1, 3, 1]) }
    else if r == 4 { (4, 1, seq![1, 1, 3, 3]) }
    else if r == 5 { (4, 4, seq![1, 3, 5, 13]) }
    else if r == 6 { (5, 2, seq![1, 1, 5, 5, 17]) }
    else if r == 7 { (5, 4, seq![1, 1, 5, 5, 5]) }
    else if r == 8 { (5, 7, seq![1, 1, 7, 11, 19]) }
    else if r == 9 { (5, 11, seq![1, 1, 5, 1, 1]) }
    else if r == 10 { (5, 13, seq![1, 1, 1, 3, 11]) }
    else if r == 11 { (5, 14, seq![1, 3, 5, 5, 31]) }
    else if r == 12 { (6, 1, seq![1, 3, 3, 9, 7, 49]) }
    else if r == 13 { (6, 13, seq![1, 1, 1, 15, 21, 21]) }
    else if r == 14 { (6, 16, seq![1, 3, 1, 13, 27, 49]) }
    else if r == 15 { (6, 19, seq![1, 1, 1, 15, 7, 5]) }
    else if r == 16 { (6, 22, seq![1, 3, 1, 3, 29, 1]) }
    else if r == 17 { (6, 25, seq![1, 1, 5, 7, 11, 15]) }
    else if r == 18 { (7, 1, seq![1, 1, 1, 1, 1, 1, 1]) }
    else if r == 19 { (7, 4, seq![1, 3, 7, 5, 9, 37, 75]) }
    else if r == 20 { (7, 7, seq![1, 3, 5, 13, 23, 53, 83]) }
    else if r == 21 { (7, 8, seq![1, 1, 1, 3, 7, 29, 67]) }
    else if r == 22 { (7, 14, seq![1, 1, 3, 7, 7, 49, 91]) }
    else if r == 23 { (7, 19, seq![1, 3, 5, 1, 1, 13, 13]) }
    else if r == 24 { (7, 21, seq![1, 3, 3, 3, 25, 41, 45]) }
    else if r == 25 { (7, 28, seq![1, 3, 7, 7, 27, 43, 119]) }
    else if r == 26 { (7, 31, seq![1, 1, 7, 1, 25, 15, 71]) }
    else if r == 27 { (7, 32, seq![1, 3, 5, 5, 21, 37, 25]) }
    else { (7, 37, seq![1, 1, 3, 1, 23, 61, 109]) }
}

/// Joe-Kuo direction-number row `r`, for `r < 29`.
fn jk_entry(r: usize) -> (e: (u32, u32, Vec<u32>))
    requires
        r < 29,
    ensures
        e.0 == jk_row(r as int).0,
        e.1 == jk_row(r as int).1,
        e.2@ == jk_row(r as int).2,
{
    let (s, a, m): (u32, u32, Vec<u32>) = if r == 0 { (1, 0, vec![1]) }
    else if r == 1 { (2, 1, vec![1, 1]) }
    else if r == 2 { (3, 1, vec![1, 1, 1]) }
    else if r == 3 { (3, 2, vec![1, 3, 1]) }
    else if r == 4 { (4, 1, vec![1, 1, 3, 3]) }
    else if r == 5 { (4, 4, vec![1, 3, 5, 13]) }
    else if r == 6 { (5, 2, vec![1, 1, 5, 5, 17]) }
    else if r == 7 { (5, 4, vec![1, 1, 5, 5, 5]) }
    else if r == 8 { (5, 7, vec![1, 1, 7, 11, 19]) }
    else if r == 9 { (5, 11, vec![1, 1, 5, 1, 1]) }
    else if r == 10 { (5, 13, vec![1, 1, 1, 3, 11]) }
    else if r == 11 { (5, 14, vec![1, 3, 5, 5, 31]) }
    else if r == 12 { (6, 1, vec![1, 3, 3, 9, 7, 49]) }
    else if r == 13 { (6, 13, vec![1, 1, 1, 15, 21, 21]) }
    else if r == 14 { (6, 16, vec![1, 3, 1, 13, 27, 49]) }
    else if r == 15 { (6, 19, vec![1, 1, 1, 15, 7, 5]) }
    else if r == 16 { (6, 22, vec![1, 3, 1, 3, 29, 1]) }
    else if r == 17 { (6, 25, vec![1, 1, 5, 7, 11, 15]) }
    else if r == 18 { (7, 1, vec![1, 1, 1, 1, 1, 1, 1]) }
    else if r == 19 { (7, 4, vec![1, 3, 7, 5, 9, 37, 75]) }
    else if r == 20 { (7, 7, vec![1, 3, 5, 13, 23, 53, 83]) }
    else if r == 21 { (7, 8, vec![1, 1, 1, 3, 7, 29, 67]) }
    else if r == 22 { (7, 14, vec![1, 1, 3, 7, 7, 49, 91]) }
    else if r == 23 { (7, 19, vec![1, 3, 5, 1, 1, 13, 13]) }
    else if r == 24 { (7, 21, vec![1, 3, 3, 3, 25, 41, 45]) }
    else if r == 25 { (7, 28, vec![1, 3, 7, 7, 27, 43, 119]) }
    else if r == 26 { (7, 31, vec![1, 1, 7, 1, 25, 15, 71]) }
    else if r == 27 { (7, 32, vec![1, 3, 5, 5, 21, 37, 25]) }
    else { (7, 37, vec![1, 1, 3, 1, 23, 61, 109]) };
    proof {
        assert(m@ =~= jk_row(r as int).2);
    }
    (s, a, m)
}


/// Direction number `i` (of 32) of dimension `d` (0-based): powers of two
/// for the first dimension; for the others the initial numbers of their row,
/// shifted into the top bits, then the Joe-Kuo recurrence.
pub open spec fn direction(d: int, i: int) -> u32
    decreases i, 40int,
{
    if i < 0 {
        0
    } else if d == 0 {
        (1u32 << ((31 - i) as u32)) as u32
    } else {
        let s = jk_row(d - 1).0 as int;
        if i < s {
            (jk_row(d - 1).2[i] << ((31 - i) as u32)) as u32
        } else {
            recurrence(d, i, s)
        }
    }
}

/// The recurrence for direction number `i` of dimension `d` after the taps
/// `1..k` of the row's polynomial: `V[i-s] ^ (V[i-s] >> s)`, then
/// `^ V[i-j]` for each tap `j < k` whose bit is set in the coefficient.
pub open spec fn recurrence(d: int, i: int, k: int) -> u32
    decreases i, k,
{
    let s = jk_row(d - 1).0 as int;
    let a = jk_row(d - 1).1;
    if i < s || s < 1 || k > s {
        0
    } else if k <= 1 {
        direction(d, i - s) ^ (direction(d, i - s) >> (s as u32))
    } else {
        let prev = recurrence(d, i, k - 1);
        let j = k - 1;
        if (a >> ((s - 1 - j) as u32)) & 1 == 1 {
            prev ^ direction(d, i - j)
        } else {
            prev
        }
    }
}

proof fn lemma_row_shape(r: int)
    requires
        0 <= r < 29,
    ensures
        1 <= jk_row(r).0 <= 7,
        jk_row(r).2.len() == jk_row(r).0,
        forall|i: int| 0 <= i < jk_row(r).2.len() ==> jk_row(r).2[i] <= 127,
{
}

/// The direction numbers of dimensions `0..dim`: `v[d][i] == direction(d, i)`.
/// The first dimension's row is always present, so `dim == 0` gives it
/// alone.
pub fn init_direction_numbers(dim: usize) -> (v: Vec<Vec<u32>>)
    requires
        dim <= MAX_DIM,
    ensures
        v@.len() == if dim == 0 { 1 } else { dim },
        forall|d: int, i: int| 0 <= d < v@.len() && 0 <= i < 32 ==> (#[trigger] v@[d]@[i]) == direction(d, i),
        forall|d: int| 0 <= d < v@.len() ==> (#[trigger] v@[d]@).len() == 32,
{
    let mut v: Vec<Vec<u32>> = Vec::with_capacity(dim);
    let mut v0: Vec<u32> = Vec::with_capacity(32);
    let mut j: u32 = 0;
    while j < BITS
        invariant
            j <= 32,
            v0@.len() == j,
            forall|i: int| 0 <= i < j ==> (#[trigger] v0@[i]) == direction(0, i),
        decreases 32 - j,
    {
        v0.push(1u32 << (BITS - 1 - j));
        j += 1;
    }
    v.push(v0);
    let mut d: usize = 1;
    while d < dim
        invariant
            1 <= d,
            d <= dim || (dim == 0 && d == 1),
            dim <= MAX_DIM,
            v@.len() == d,
            forall|e: int, i: int| 0 <= e < d && 0 <= i < 32 ==> (#[trigger] v@[e]@[i]) == direction(e, i),
            forall|e: int| 0 <= e < d ==> (#[trigger] v@[e]@).len() == 32,
        decreases dim - d,
    {
        let (s, a, m) = jk_entry(d - 1);
        proof {
            lemma_row_shape(d as int - 1);
        }
        let mut vd: Vec<u32> = Vec::with_capacity(32);
        let mut i: usize = 0;
        while i < s as usize
            invariant
                1 <= s <= 7,
                m@.len() == s,
                s == jk_row(d as int - 1).0,
                m@ == jk_row(d as int - 1).2,
                d >= 1,
                i <= s,
                vd@.len() == i,
                forall|k: int| 0 <= k < i ==> (#[trigger] vd@[k]) == direction(d as int, k),
            decreases s - i,
        {
            vd.push(m[i] << (BITS - 1 - i as u32));
            i += 1;
        }
        while i < 32
            invariant
                1 <= s <= 7,
                s == jk_row(d as int - 1).0,
                a == jk_row(d as int - 1).1,
                d >= 1,
                s <= i <= 32,
                vd@.len() == i,
                forall|k: int| 0 <= k < i ==> (#[trigger] vd@[k]) == direction(d as int, k),
            decreases 32 - i,
        {
            let base = vd[i - s as usize];
            let mut x: u32 = base ^ (base >> s);
            let mut k: u32 = 1;
            while k < s
                invariant
                    1 <= s <= 7,
                    s == jk_row(d as int - 1).0,
                    a == jk_row(d as int - 1).1,
                    d >= 1,
                    s <= i < 32,
                    1 <= k <= s,
                    vd@.len() == i,
                    forall|q: int| 0 <= q < i ==> (#[trigger] vd@[q]) == direction(d as int, q),
                    x == recurrence(d as int, i as int, k as int),
                decreases s - k,
            {
                if (a >> (s - 1 - k)) & 1 == 1 {
                    x = x ^ vd[i - k as usize];
                }
                k += 1;
            }
            vd.push(x);
            i += 1;
        }
        v.push(vd);
        d += 1;
    }
    v
}

/// The number of trailing one bits of `n`.
pub open spec fn trailing_ones(n: nat) -> nat
    decreases n,
{
    if n % 2 == 0 {
        0
    } else {
        1 + trailing_ones(n / 2)
    }
}

/// Position of the rightmost zero bit of `n`, counted from the least
/// significant bit.
pub fn rightmost_zero_bit(n: usize) -> (c: usize)
    ensures
        c == trailing_ones(n as nat),
{
    let mut m = n;
    let mut c: usize = 0;
    proof {
        lemma_trailing_ones_bound(n as nat);
    }
    while m % 2 == 1
        invariant
            trailing_ones(n as nat) == c + trailing_ones(m as nat),
            trailing_ones(n as nat) <= n,
            m <= n,
        decreases m,
    {
        proof {
            lemma_trailing_ones_bound(m as nat);
        }
        m = m / 2;
        c += 1;
    }
    c
}

proof fn lemma_trailing_ones_bound(n: nat)
    ensures
        trailing_ones(n) <= n,
    decreases n,
{
    if n % 2 == 1 {
        lemma_trailing_ones_bound(n / 2);
    }
}


/// The bits of `x` in reverse order.
pub open spec fn rev32(x: u32) -> u32 {
    (((x >> 0u32) & 1u32) << 31u32) | (((x >> 1u32) & 1u32) << 30u32) | (((x >> 2u32) & 1u32) << 29u32) | (((x >> 3u32) & 1u32) << 28u32) | (((x >> 4u32) & 1u32) << 27u32) | (((x >> 5u32) & 1u32) << 26u32) | (((x >> 6u32) & 1u32) << 25u32) | (((x >> 7u32) & 1u32) << 24u32) | (((x >> 8u32) & 1u32) << 23u32) | (((x >> 9u32) & 1u32) << 22u32) | (((x >> 10u32) & 1u32) << 21u32) | (((x >> 11u32) & 1u32) << 20u32) | (((x >> 12u32) & 1u32) << 19u32) | (((x >> 13u32) & 1u32) << 18u32) | (((x >> 14u32) & 1u32) << 17u32) | (((x >> 15u32) & 1u32) << 16u32) | (((x >> 16u32) & 1u32) << 15u32) | (((x >> 17u32) & 1u32) << 14u32) | (((x >> 18u32) & 1u32) << 13u32) | (((x >> 19u32) & 1u32) << 12u32) | (((x >> 20u32) & 1u32) << 11u32) | (((x >> 21u32) & 1u32) << 10u32) | (((x >> 22u32) & 1u32) << 9u32) | (((x >> 23u32) & 1u32) << 8u32) | (((x >> 24u32) & 1u32) << 7u32) | (((x >> 25u32) & 1u32) << 6u32) | (((x >> 26u32) & 1u32) << 5u32) | (((x >> 27u32) & 1u32) << 4u32) | (((x >> 28u32) & 1u32) << 3u32) | (((x >> 29u32) & 1u32) << 2u32) | (((x >> 30u32) & 1u32) << 1u32) | (((x >> 31u32) & 1u32) << 0u32)
}

/// The Gray code of `x`.
pub open spec fn gray32(x: u32) -> u32 {
    x ^ (x >> 1u32)
}

proof fn lemma_rev32_zero()
    ensures
        rev32(0) == 0,
{
    assert(rev32(0) == 0) by (bit_vector);
}

proof fn lemma_rev32_flip(x: u32, t: u32)
    requires
        t < 32,
    ensures
        rev32(x ^ (1u32 << t)) == rev32(x) ^ (1u32 << ((31 - t) as u32)),
{
    assert(rev32(x ^ (1u32 << t)) == rev32(x) ^ (1u32 << ((31 - t) as u32))) by (bit_vector)
        requires
            t < 32,
    ;
}

proof fn lemma_rev32_injective(x: u32, y: u32)
    requires
        rev32(x) == rev32(y),
    ensures
        x == y,
{
    assert(x == y) by (bit_vector)
        requires
            rev32(x) == rev32(y),
    ;
}

proof fn lemma_gray32_injective(x: u32, y: u32)
    requires
        gray32(x) == gray32(y),
    ensures
        x == y,
{
    assert(x == y) by (bit_vector)
        requires
            x ^ (x >> 1u32) == y ^ (y >> 1u32),
    ;
}

/// The low `t` bits of `k` are ones and bit `t` is zero, for `t` the
/// number of trailing ones of `k`; `t` is below 32 unless `k` is all ones.
proof fn lemma_trailing_ones_bits(k: u32)
    requires
        k < 0xffff_ffffu32,
    ensures
        trailing_ones(k as nat) < 32,
        (k >> (trailing_ones(k as nat) as u32)) & 1u32 == 0,
        k & sub_one(1u32 << (trailing_ones(k as nat) as u32)) == sub_one(1u32 << (trailing_ones(k as nat) as u32)),
    decreases k,
{
    if k % 2 == 0 {
        assert((k >> 0u32) & 1u32 == 0 && k & sub_one(1u32 << 0u32) == sub_one(1u32 << 0u32)) by (bit_vector)
            requires
                k % 2 == 0,
        ;
    } else {
        let h = k / 2;
        assert(h == k >> 1u32 && h < 0xffff_ffffu32) by (bit_vector)
            requires
                h == k / 2,
        ;
        lemma_trailing_ones_bits(h);
        let t = trailing_ones(h as nat) as u32;
        assert(trailing_ones(k as nat) == 1 + trailing_ones((k / 2) as nat));
        if t == 31 {
            assert(false) by (bit_vector)
                requires
                    h == k >> 1u32,
                    k % 2 == 1,
                    k < 0xffff_ffffu32,
                    h & sub_one(1u32 << 31u32) == sub_one(1u32 << 31u32),
            ;
        }
        assert((k >> (t + 1)) & 1u32 == 0 && k & sub_one(1u32 << (t + 1)) == sub_one(1u32 << (t + 1))) by (bit_vector)
            requires
                t < 31,
                h == k >> 1u32,
                k % 2 == 1,
                (h >> t) & 1u32 == 0,
                h & sub_one(1u32 << t) == sub_one(1u32 << t),
        ;
    }
}

/// `x - 1` for `x > 0`, and `u32::MAX` for zero.
pub open spec fn sub_one(x: u32) -> u32 {
    (x - 1) as u32
}

/// Adding one to `k` flips bit `t` of its Gray code, for `t` the number of
/// trailing ones of `k`.
proof fn lemma_gray32_step(k: u32, k1: u32, t: u32)
    requires
        t < 32,
        k < 0xffff_ffffu32,
        k1 == k + 1,
        (k >> t) & 1u32 == 0,
        k & sub_one(1u32 << t) == sub_one(1u32 << t),
    ensures
        gray32(k1) == gray32(k) ^ (1u32 << t),
{
    assert(k1 ^ (k1 >> 1u32) == (k ^ (k >> 1u32)) ^ (1u32 << t)) by (bit_vector)
        requires
            t < 32,
            k < 0xffff_ffffu32,
            k1 == k + 1,
            (k >> t) & 1u32 == 0,
            k & sub_one(1u32 << t) == sub_one(1u32 << t),
    ;
}

/// The first dimension's state at point `k` is the bit reversal of the
/// Gray code of `k`.
proof fn lemma_first_dimension(k: nat)
    requires
        k < 0x1_0000_0000,
    ensures
        sobol_state(k, 0) == rev32(gray32(k as u32)),
    decreases k,
{
    if k == 0 {
        assert(gray32(0u32) == 0) by (bit_vector);
        lemma_rev32_zero();
    } else {
        let p = (k - 1) as nat;
        lemma_first_dimension(p);
        let pk = p as u32;
        lemma_trailing_ones_bits(pk);
        let t = trailing_ones(p) as u32;
        lemma_gray32_step(pk, k as u32, t);
        lemma_rev32_flip(gray32(pk), t);
        assert(direction(0, t as int) == 1u32 << (31u32 - t));
    }
}

/// Distinct indices below `2^32` give distinct Sobol points: already their
/// first coordinates differ.
pub proof fn law_sobol_points_distinct(k1: nat, k2: nat, dim: nat)
    requires
        k1 < 0x1_0000_0000,
        k2 < 0x1_0000_0000,
        k1 != k2,
        1 <= dim,
    ensures
        sobol_state(k1, 0) != sobol_state(k2, 0),
        Seq::new(dim, |j: int| sobol_state(k1, j)) != Seq::new(dim, |j: int| sobol_state(k2, j)),
{
    lemma_first_dimension(k1);
    lemma_first_dimension(k2);
    if sobol_state(k1, 0) == sobol_state(k2, 0) {
        lemma_rev32_injective(gray32(k1 as u32), gray32(k2 as u32));
        lemma_gray32_injective(k1 as u32, k2 as u32);
    }
    assert(Seq::new(dim, |j: int| sobol_state(k1, j))[0] == sobol_state(k1, 0));
    assert(Seq::new(dim, |j: int| sobol_state(k2, j))[0] == sobol_state(k2, 0));
}

/// Why a Sobol sequence cannot be generated.
#[derive(Debug, Clone, Copy, PartialEq, Eq, Structural)]
pub enum SobolInputError {
    /// The number of points is not a power of two; carries it as `u32`.
    NotPowerOfTwo(u32),
    /// The dimension is zero or beyond [`MAX_DIM`].
    DimensionMismatch { expected: usize, actual: usize },
}

/// `n` is a power of two.
pub open spec fn is_power_of_two(n: nat) -> bool
    decreases n,
{
    if n == 0 {
        false
    } else if n == 1 {
        true
    } else {
        n % 2 == 0 && is_power_of_two(n / 2)
    }
}

/// `2^t`.
pub open spec fn pow2(t: nat) -> nat
    decreases t,
{
    if t == 0 {
        1
    } else {
        2 * pow2((t - 1) as nat)
    }
}

/// The state of dimension `j` at point `k`: zero at the origin, then at each
/// point the previous state XOR the direction number indexed by the
/// rightmost zero bit of the previous point's index.
pub open spec fn sobol_state(k: nat, j: int) -> u32
    decreases k,
{
    if k == 0 {
        0
    } else {
        sobol_state((k - 1) as nat, j) ^ direction(j, trailing_ones((k - 1) as nat) as int)
    }
}

proof fn lemma_trailing_ones_pow(x: nat, t: nat)
    requires
        trailing_ones(x) >= t,
    ensures
        x + 1 >= pow2(t),
    decreases t,
{
    if t > 0 {
        assert(x % 2 == 1);
        lemma_trailing_ones_pow(x / 2, (t - 1) as nat);
    }
}

proof fn lemma_pow2_32()
    ensures
        pow2(32) == 0x1_0000_0000,
{
    reveal_with_fuel(pow2, 33);
}

fn is_power_of_two_exec(n: usize) -> (b: bool)
    ensures
        b == is_power_of_two(n as nat),
{
    if n == 0 {
        return false;
    }
    let mut m = n;
    while m > 1 && m % 2 == 0
        invariant
            m >= 1,
            is_power_of_two(n as nat) == is_power_of_two(m as nat),
        decreases m,
    {
        m = m / 2;
    }
    m == 1
}

/// The integer states of `n` Sobol points in `dim` dimensions: point `k`,
/// dimension `j` is `sobol_state(k, j)`; scaled by `2^-32` they lie in
/// `[0, 1)`.
///
/// Fails with `NotPowerOfTwo` when `n` is not a power of two, then with
/// `DimensionMismatch` when `dim` is not in `1..=MAX_DIM`.
pub fn sobol_states(n: usize, dim: usize) -> (r: Result<Vec<Vec<u32>>, SobolInputError>)
    requires
        !(is_power_of_two(n as nat) && n > 0x1_0000_0000 && 1 <= dim <= MAX_DIM),
    ensures
        (r matches Err(SobolInputError::NotPowerOfTwo(x))) <==> !is_power_of_two(n as nat),
        r matches Err(SobolInputError::NotPowerOfTwo(x)) ==> x == n as u32,
        (r matches Err(SobolInputError::DimensionMismatch { expected, actual })) <==> is_power_of_two(n as nat)
            && (dim == 0 || dim > MAX_DIM),
        r matches Err(SobolInputError::DimensionMismatch { expected, actual }) ==> expected == MAX_DIM
            && actual == dim,
        r matches Ok(p) ==> {
            &&& p@.len() == n
            &&& forall|k: int| 0 <= k < n ==> (#[trigger] p@[k])@.len() == dim
            &&& forall|k: int, j: int| 0 <= k < n && 0 <= j < dim ==> (#[trigger] p@[k]@[j]) == sobol_state(k as nat, j)
        },
{
    if !is_power_of_two_exec(n) {
        return Err(SobolInputError::NotPowerOfTwo(n as u32));
    }
    if dim == 0 || dim > MAX_DIM {
        return Err(SobolInputError::DimensionMismatch { expected: MAX_DIM, actual: dim });
    }
    let direction_numbers = init_direction_numbers(dim);
    let mut state: Vec<u32> = Vec::with_capacity(dim);
    let mut j: usize = 0;
    while j < dim
        invariant
            j <= dim,
            state@.len() == j,
            forall|q: int| 0 <= q < j ==> (#[trigger] state@[q]) == 0,
        decreases dim - j,
    {
        state.push(0);
        j += 1;
    }
    let mut points: Vec<Vec<u32>> = Vec::with_capacity(n);
    points.push(state.clone());
    proof {
        assert forall|q: int| 0 <= q < dim implies (#[trigger] points@[0]@[q]) == sobol_state(0, q) by {
            assert(points@[0]@[q] == state@[q]);
        }
    }
    let mut k: usize = 1;
    while k < n
        invariant
            1 <= k <= n,
            n <= 0x1_0000_0000,
            1 <= dim <= MAX_DIM,
            direction_numbers@.len() == dim,
            forall|d: int, i: int| 0 <= d < dim && 0 <= i < 32 ==> (#[trigger] direction_numbers@[d]@[i]) == direction(d, i),
            forall|d: int| 0 <= d < dim ==> (#[trigger] direction_numbers@[d]@).len() == 32,
            state@.len() == dim,
            forall|q: int| 0 <= q < dim ==> (#[trigger] state@[q]) == sobol_state((k - 1) as nat, q),
            points@.len() == k,
            forall|p: int| 0 <= p < k ==> (#[trigger] points@[p])@.len() == dim,
            forall|p: int, q: int| 0 <= p < k && 0 <= q < dim ==> (#[trigger] points@[p]@[q]) == sobol_state(p as nat, q),
        decreases n - k,
    {
        let c = rightmost_zero_bit(k - 1);
        proof {
            if trailing_ones((k - 1) as nat) >= 32 {
                lemma_trailing_ones_pow((k - 1) as nat, 32);
                lemma_pow2_32();
            }
        }
        let mut j: usize = 0;
        while j < dim
            invariant
                j <= dim,
                c < 32,
                c == trailing_ones((k - 1) as nat),
                k >= 1,
                direction_numbers@.len() == dim,
                forall|d: int, i: int| 0 <= d < dim && 0 <= i < 32 ==> (#[trigger] direction_numbers@[d]@[i]) == direction(d, i),
                forall|d: int| 0 <= d < dim ==> (#[trigger] direction_numbers@[d]@).len() == 32,
                state@.len() == dim,
                forall|q: int| 0 <= q < j ==> (#[trigger] state@[q]) == sobol_state(k as nat, q),
                forall|q: int| j <= q < dim ==> (#[trigger] state@[q]) == sobol_state((k - 1) as nat, q),
            decreases dim - j,
        {
            let x = state[j] ^ direction_numbers[j][c];
            state.set(j, x);
            j += 1;
        }
        points.push(state.clone());
        proof {
            assert forall|q: int| 0 <= q < dim implies (#[trigger] points@[k as int]@[q]) == sobol_state(k as nat, q) by {
                assert(points@[k as int]@[q] == state@[q]);
            }
        }
        k += 1;
    }
    Ok(points)
}


/// Point `j` of the first Saltelli matrix `A` (`0 <= j < n`), `B` taking the
/// next `n` points, and the matrix `AB_i`: the rows of `A` with column `i`
/// taken from `B`.
pub open spec fn saltelli_entry(n: nat, i: int, j: int, q: int) -> u32 {
    if q == i {
        sobol_state((n + j) as nat, q)
    } else {
        sobol_state(j as nat, q)
    }
}

/// The integer states of the Saltelli matrices of `n` rows in `dim`
/// dimensions, from the first `2n` Sobol points: `A` is points `0..n`, `B`
/// points `n..2n`, and `AB_i` is `A` with column `i` replaced by that of `B`.
/// Fails as [`sobol_states`] does on `2n` points.
pub fn saltelli_states(n: usize, dim: usize) -> (r: Result<(Vec<Vec<u32>>, Vec<Vec<u32>>, Vec<Vec<Vec<u32>>>), SobolInputError>)
    requires
        n <= usize::MAX / 2,
        !(is_power_of_two(2 * n as nat) && 2 * n > 0x1_0000_0000 && 1 <= dim <= MAX_DIM),
    ensures
        (r matches Err(SobolInputError::NotPowerOfTwo(x))) <==> !is_power_of_two(2 * n as nat),
        r matches Err(SobolInputError::NotPowerOfTwo(x)) ==> x == (2 * n) as u32,
        (r matches Err(SobolInputError::DimensionMismatch { expected, actual })) <==> is_power_of_two(2 * n as nat)
            && (dim == 0 || dim > MAX_DIM),
        r matches Err(SobolInputError::DimensionMismatch { expected, actual }) ==> expected == MAX_DIM
            && actual == dim,
        r matches Ok((a, b, ab)) ==> {
            &&& a@.len() == n
            &&& b@.len() == n
            &&& ab@.len() == dim
            &&& forall|j: int| 0 <= j < n ==> (#[trigger] a@[j])@.len() == dim
            &&& forall|j: int| 0 <= j < n ==> (#[trigger] b@[j])@.len() == dim
            &&& forall|j: int, q: int| 0 <= j < n && 0 <= q < dim ==> (#[trigger] a@[j]@[q]) == sobol_state(j as nat, q)
            &&& forall|j: int, q: int| 0 <= j < n && 0 <= q < dim ==> (#[trigger] b@[j]@[q]) == sobol_state((n + j) as nat, q)
            &&& forall|i: int| 0 <= i < dim ==> (#[trigger] ab@[i])@.len() == n
            &&& forall|i: int, j: int| 0 <= i < dim && 0 <= j < n ==> (#[trigger] ab@[i]@[j])@.len() == dim
            &&& forall|i: int, j: int, q: int| 0 <= i < dim && 0 <= j < n && 0 <= q < dim
                ==> (#[trigger] ab@[i]@[j]@[q]) == saltelli_entry(n as nat, i, j, q)
        },
{
    let total = 2 * n;
    let raw = match sobol_states(total, dim) {
        Ok(p) => p,
        Err(e) => {
            return Err(e);
        },
    };
    let mut a: Vec<Vec<u32>> = Vec::with_capacity(n);
    let mut b: Vec<Vec<u32>> = Vec::with_capacity(n);
    let mut j: usize = 0;
    while j < n
        invariant
            j <= n,
            total == 2 * n,
            raw@.len() == total,
            forall|k: int| 0 <= k < total ==> (#[trigger] raw@[k])@.len() == dim,
            forall|k: int, q: int| 0 <= k < total && 0 <= q < dim ==> (#[trigger] raw@[k]@[q]) == sobol_state(k as nat, q),
            a@.len() == j,
            b@.len() == j,
            forall|k: int| 0 <= k < j ==> (#[trigger] a@[k])@ == raw@[k]@,
            forall|k: int| 0 <= k < j ==> (#[trigger] b@[k])@ == raw@[n + k]@,
        decreases n - j,
    {
        a.push(raw[j].clone());
        b.push(raw[n + j].clone());
        j += 1;
    }
    let mut ab: Vec<Vec<Vec<u32>>> = Vec::with_capacity(dim);
    let mut i: usize = 0;
    while i < dim
        invariant
            i <= dim,
            a@.len() == n,
            b@.len() == n,
            forall|k: int| 0 <= k < n ==> (#[trigger] a@[k])@.len() == dim,
            forall|k: int| 0 <= k < n ==> (#[trigger] b@[k])@.len() == dim,
            forall|k: int, q: int| 0 <= k < n && 0 <= q < dim ==> (#[trigger] a@[k]@[q]) == sobol_state(k as nat, q),
            forall|k: int, q: int| 0 <= k < n && 0 <= q < dim ==> (#[trigger] b@[k]@[q]) == sobol_state((n + k) as nat, q),
            ab@.len() == i,
            forall|e: int| 0 <= e < i ==> (#[trigger] ab@[e])@.len() == n,
            forall|e: int, k: int| 0 <= e < i && 0 <= k < n ==> (#[trigger] ab@[e]@[k])@.len() == dim,
            forall|e: int, k: int, q: int| 0 <= e < i && 0 <= k < n && 0 <= q < dim
                ==> (#[trigger] ab@[e]@[k]@[q]) == saltelli_entry(n as nat, e, k, q),
        decreases dim - i,
    {
        let mut m: Vec<Vec<u32>> = Vec::with_capacity(n);
        let mut k: usize = 0;
        while k < n
            invariant
                i < dim,
                k <= n,
                a@.len() == n,
                b@.len() == n,
                forall|x: int| 0 <= x < n ==> (#[trigger] a@[x])@.len() == dim,
                forall|x: int| 0 <= x < n ==> (#[trigger] b@[x])@.len() == dim,
                forall|x: int, q: int| 0 <= x < n && 0 <= q < dim ==> (#[trigger] a@[x]@[q]) == sobol_state(x as nat, q),
                forall|x: int, q: int| 0 <= x < n && 0 <= q < dim ==> (#[trigger] b@[x]@[q]) == sobol_state((n + x) as nat, q),
                m@.len() == k,
                forall|x: int| 0 <= x < k ==> (#[trigger] m@[x])@.len() == dim,
                forall|x: int, q: int| 0 <= x < k && 0 <= q < dim
                    ==> (#[trigger] m@[x]@[q]) == saltelli_entry(n as nat, i as int, x, q),
            decreases n - k,
        {
            let mut row = a[k].clone();
            let v = b[k][i];
            row.set(i, v);
            m.push(row);
            k += 1;
        }
        ab.push(m);
        i += 1;
    }
    Ok((a, b, ab))
}

} // verus!
