//! Bit-level combinatorics underlying the geometric product.
//!
//! Basis blades are identified by 16-bit masks, one bit per generator.  The
//! specifications here model those masks as natural numbers, peeling one bit
//! per recursion step, so that every property can be proved by induction on
//! halving.  The commutation count of the geometric product (the number of
//! generator transpositions needed to interleave two blades) is modelled by
//! `comm_fold`, and related to the simpler pair-count `cross` whose parity
//! drives all sign reasoning.

use vstd::prelude::*;
use vstd::arithmetic::power2::pow2;
use vstd::arithmetic::power2::lemma_pow2_unfold;
use vstd::arithmetic::power2::lemma2_to64;
use vstd::arithmetic::div_mod::lemma_mul_mod_noop_general;

verus! {

/// Number of set bits of `m` (the grade of a blade mask).
pub open spec fn pc(m: nat) -> nat
    decreases m,
{
    if m == 0 {
        0
    } else {
        m % 2 + pc(m / 2)
    }
}

/// Bitwise exclusive or, modelled on naturals.
pub open spec fn nxor(a: nat, b: nat) -> nat
    decreases a + b,
{
    if a == 0 && b == 0 {
        0
    } else {
        (if a % 2 == b % 2 {
            0nat
        } else {
            1nat
        }) + 2 * nxor(a / 2, b / 2)
    }
}

/// Bitwise and, modelled on naturals.
pub open spec fn nband(a: nat, b: nat) -> nat
    decreases a + b,
{
    if a == 0 && b == 0 {
        0
    } else {
        (if a % 2 == 1 && b % 2 == 1 {
            1nat
        } else {
            0nat
        }) + 2 * nband(a / 2, b / 2)
    }
}

/// Number of pairs (i, j) with bit i set in `a`, bit j set in `b` and j < i.
/// Its parity is the commutation sign of the geometric product.
pub open spec fn cross(a: nat, b: nat) -> nat
    decreases a + b,
{
    if a == 0 && b == 0 {
        0
    } else {
        (if b % 2 == 1 {
            pc(a / 2)
        } else {
            0nat
        }) + cross(a / 2, b / 2)
    }
}

/// The hurdle walk of the geometric product: process the set bits of `a` from
/// low to high; for each, count the bits of `a` strictly above it and the bits
/// of the evolving second mask strictly below it, then move the bit into the
/// second mask.  `low` counts the bits of the evolved second mask already
/// passed (strictly below the current position).
pub open spec fn comm_fold(a: nat, b: nat, low: nat) -> nat
    decreases a,
{
    if a == 0 {
        0
    } else if a % 2 == 1 {
        pc(a / 2) + low + comm_fold(a / 2, b / 2, if b % 2 == 1 {
            low
        } else {
            low + 1
        })
    } else {
        comm_fold(a / 2, b / 2, low + b % 2)
    }
}

/// Sign carried by a parity: +1 for even, -1 for odd.
pub open spec fn psign(n: nat) -> int {
    if n % 2 == 0 {
        1
    } else {
        -1
    }
}

/// The positions of the set bits of `m`, in ascending order, offset by `base`.
pub open spec fn bits_of(m: nat, base: nat) -> Seq<nat>
    decreases m,
{
    if m == 0 {
        Seq::empty()
    } else if m % 2 == 1 {
        seq![base] + bits_of(m / 2, base + 1)
    } else {
        bits_of(m / 2, base + 1)
    }
}

/// Low bit and shift of a `u16`, as seen by the natural-number model.
pub proof fn lemma_u16_low(x: u16)
    ensures
        (x & 1) as nat == (x as nat) % 2,
        (x >> 1u16) as nat == (x as nat) / 2,
        x as nat == 2 * ((x >> 1u16) as nat) + (x & 1) as nat,
{
    assert(x & 1 == x % 2 && x >> 1u16 == x / 2 && x == 2 * (x >> 1u16) + (x & 1)) by (bit_vector);
}

/// `u16` exclusive or agrees with the natural-number model.
pub proof fn lemma_u16_xor(x: u16, y: u16)
    ensures
        (x ^ y) as nat == nxor(x as nat, y as nat),
    decreases x as nat + y as nat,
{
    if x == 0 && y == 0 {
        assert(0u16 ^ 0u16 == 0u16) by (bit_vector);
    } else {
        lemma_u16_low(x);
        lemma_u16_low(y);
        lemma_u16_xor(x >> 1u16, y >> 1u16);
        lemma_u16_low(x ^ y);
        assert((x ^ y) >> 1u16 == (x >> 1u16) ^ (y >> 1u16)) by (bit_vector);
        assert(((x ^ y) & 1 == 1) <==> ((x & 1) != (y & 1))) by (bit_vector);
    }
}

/// `u16` and agrees with the natural-number model.
pub proof fn lemma_u16_and(x: u16, y: u16)
    ensures
        (x & y) as nat == nband(x as nat, y as nat),
    decreases x as nat + y as nat,
{
    if x == 0 && y == 0 {
        assert(0u16 & 0u16 == 0u16) by (bit_vector);
    } else {
        lemma_u16_low(x);
        lemma_u16_low(y);
        lemma_u16_and(x >> 1u16, y >> 1u16);
        lemma_u16_low(x & y);
        assert((x & y) >> 1u16 == (x >> 1u16) & (y >> 1u16)) by (bit_vector);
        assert(((x & y) & 1 == 1) <==> ((x & 1) == 1 && (y & 1) == 1)) by (bit_vector);
    }
}

/// `pow2` is positive (restated for convenient triggering).
pub proof fn lemma_pow2_positive(k: nat)
    ensures
        pow2(k) > 0,
{
    vstd::arithmetic::power2::lemma_pow2_pos(k);
}

/// The and of two masks is bounded by each of them.
pub proof fn lemma_nband_le(a: nat, b: nat)
    ensures
        nband(a, b) <= a,
        nband(a, b) <= b,
    decreases a + b,
{
    if a == 0 && b == 0 {
    } else {
        lemma_nband_le(a / 2, b / 2);
    }
}

/// Exclusive or stays below a shared power-of-two bound.
pub proof fn lemma_nxor_bound(a: nat, b: nat, k: nat)
    requires
        a < pow2(k),
        b < pow2(k),
    ensures
        nxor(a, b) < pow2(k),
    decreases k,
{
    if a == 0 && b == 0 {
        lemma_pow2_positive(k);
    } else {
        if k == 0 {
            lemma2_to64();
        } else {
            lemma_pow2_unfold(k);
            assert(a / 2 < pow2((k - 1) as nat) && b / 2 < pow2((k - 1) as nat)) by (nonlinear_arith)
                requires
                    a < 2 * pow2((k - 1) as nat),
                    b < 2 * pow2((k - 1) as nat),
                    pow2((k - 1) as nat) > 0,
            {
            }
            lemma_nxor_bound(a / 2, b / 2, (k - 1) as nat);
        }
    }
}

/// Exclusive or of a mask with itself vanishes.
pub proof fn lemma_nxor_self(a: nat)
    ensures
        nxor(a, a) == 0,
    decreases a,
{
    if a != 0 {
        lemma_nxor_self(a / 2);
    }
}

/// Exclusive or is associative.
pub proof fn lemma_nxor_assoc(a: nat, b: nat, c: nat)
    ensures
        nxor(nxor(a, b), c) == nxor(a, nxor(b, c)),
    decreases a + b + c,
{
    if a == 0 && b == 0 && c == 0 {
    } else {
        lemma_nxor_assoc(a / 2, b / 2, c / 2);
        assert(nxor(a, b) % 2 == (if a % 2 == b % 2 { 0int } else { 1int }) && nxor(a, b) / 2 == nxor(a / 2, b / 2));
        assert(nxor(b, c) % 2 == (if b % 2 == c % 2 { 0int } else { 1int }) && nxor(b, c) / 2 == nxor(b / 2, c / 2));
    }
}

/// Parity of the grade of an exclusive or: grades add modulo 2.
pub proof fn lemma_pc_nxor_parity(a: nat, b: nat)
    ensures
        pc(nxor(a, b)) % 2 == (pc(a) + pc(b)) % 2,
    decreases a + b,
{
    if a == 0 && b == 0 {
    } else {
        lemma_pc_nxor_parity(a / 2, b / 2);
        assert(nxor(a, b) % 2 == (if a % 2 == b % 2 { 0int } else { 1int }) && nxor(a, b) / 2 == nxor(a / 2, b / 2));
    }
}

/// `cross` vanishes when either side is empty.
pub proof fn lemma_cross_zero(a: nat)
    ensures
        cross(a, 0) == 0,
        cross(0, a) == 0,
    decreases a,
{
    if a != 0 {
        lemma_cross_zero(a / 2);
    }
}

/// `cross` is additive modulo 2 in its first argument, over exclusive or.
pub proof fn lemma_cross_xor_left(a: nat, b: nat, c: nat)
    ensures
        cross(nxor(a, b), c) % 2 == (cross(a, c) + cross(b, c)) % 2,
    decreases a + b + c,
{
    if a == 0 && b == 0 && c == 0 {
    } else {
        lemma_cross_xor_left(a / 2, b / 2, c / 2);
        lemma_pc_nxor_parity(a / 2, b / 2);
        assert(nxor(a, b) % 2 == (if a % 2 == b % 2 { 0int } else { 1int }) && nxor(a, b) / 2 == nxor(a / 2, b / 2));
    }
}

/// `cross` is additive modulo 2 in its second argument, over exclusive or.
pub proof fn lemma_cross_xor_right(a: nat, b: nat, c: nat)
    ensures
        cross(a, nxor(b, c)) % 2 == (cross(a, b) + cross(a, c)) % 2,
    decreases a + b + c,
{
    if a == 0 && b == 0 && c == 0 {
    } else {
        lemma_cross_xor_right(a / 2, b / 2, c / 2);
        assert(nxor(b, c) % 2 == (if b % 2 == c % 2 { 0int } else { 1int }) && nxor(b, c) / 2 == nxor(b / 2, c / 2));
    }
}

/// For disjoint masks the two cross counts exhaust all pairs.
pub proof fn lemma_cross_disjoint(a: nat, b: nat)
    requires
        nband(a, b) == 0,
    ensures
        cross(a, b) + cross(b, a) == pc(a) * pc(b),
    decreases a + b,
{
    if a == 0 && b == 0 {
    } else {
        assert(nband(a / 2, b / 2) == 0 && !(a % 2 == 1 && b % 2 == 1));
        lemma_cross_disjoint(a / 2, b / 2);
        let x1 = a % 2;
        let y1 = b % 2;
        let p = pc(a / 2);
        let q = pc(b / 2);
        assert((x1 + p) * (y1 + q) == x1 * y1 + x1 * q + p * y1 + p * q) by (nonlinear_arith);
        assert(x1 < 2 && y1 < 2);
        assert(x1 * y1 == 0) by (nonlinear_arith)
            requires
                !(x1 == 1 && y1 == 1),
                x1 < 2,
                y1 < 2,
        {
        }
        assert(x1 * q == (if x1 == 1 { q } else { 0nat })) by (nonlinear_arith)
            requires
                x1 < 2,
        {
        }
        assert(p * y1 == (if y1 == 1 { p } else { 0nat })) by (nonlinear_arith)
            requires
                y1 < 2,
        {
        }
        assert(pc(a) == x1 + p && pc(b) == y1 + q);
    }
}

/// The hurdle walk has the parity of `cross`, shifted by the carried count.
pub proof fn lemma_comm_cross(a: nat, b: nat, low: nat)
    ensures
        comm_fold(a, b, low) % 2 == (cross(a, b) + low * pc(a)) % 2,
    decreases a,
{
    let p = pc(a / 2);
    let c = cross(a / 2, b / 2);
    if a == 0 {
        lemma_cross_zero(b);
        assert(comm_fold(a, b, low) == 0);
        assert(cross(a, b) == 0);
        assert(pc(a) == 0);
        assert(low * pc(a) == 0) by (nonlinear_arith)
            requires
                pc(a) == 0,
        {
        }
    } else if a % 2 == 1 {
        let low2: nat = if b % 2 == 1 {
            low
        } else {
            low + 1
        };
        lemma_comm_cross(a / 2, b / 2, low2);
        // comm_fold(a, b, low) == p + low + F with F % 2 == (c + low2 * p) % 2
        let f = comm_fold(a / 2, b / 2, low2);
        lemma_mod_sum_cancel(f, c + low2 * p, p + low);
        assert(comm_fold(a, b, low) % 2 == (p + low + (c + low2 * p)) % 2);
        assert(pc(a) == 1 + p);
        assert(low * pc(a) == low + low * p) by (nonlinear_arith)
            requires
                pc(a) == 1 + p,
        {
        }
        if b % 2 == 1 {
            assert(cross(a, b) == p + c);
            assert(p + low + (c + low * p) == cross(a, b) + (low + low * p));
            assert(comm_fold(a, b, low) % 2 == (cross(a, b) + low * pc(a)) % 2);
        } else {
            assert(cross(a, b) == c);
            assert(low2 * p == low * p + p) by (nonlinear_arith)
                requires
                    low2 == low + 1,
            {
            }
            assert(p + low + (c + low2 * p) == 2 * p + (c + low + low * p));
            vstd::arithmetic::div_mod::lemma_mod_multiples_vanish(p as int, (c + low + low * p) as int, 2);
            assert((2 * p + (c + low + low * p)) % 2 == (c + low + low * p) % 2);
            assert(comm_fold(a, b, low) % 2 == (cross(a, b) + low * pc(a)) % 2);
        }
    } else {
        let low2: nat = low + b % 2;
        lemma_comm_cross(a / 2, b / 2, low2);
        assert(comm_fold(a, b, low) == comm_fold(a / 2, b / 2, low2));
        assert(pc(a) == p);
        assert(low2 * p == low * p + (b % 2) * p) by (nonlinear_arith)
            requires
                low2 == low + b % 2,
        {
        }
        if b % 2 == 1 {
            assert(cross(a, b) == p + c);
            assert((b % 2) * p == p) by (nonlinear_arith)
                requires
                    b % 2 == 1,
            {
            }
            assert(c + low2 * p == cross(a, b) + low * p);
        } else {
            assert(cross(a, b) == c);
            assert((b % 2) * p == 0) by (nonlinear_arith)
                requires
                    b % 2 == 0,
            {
            }
            assert(c + low2 * p == cross(a, b) + low * p);
        }
        assert(comm_fold(a, b, low) % 2 == (cross(a, b) + low * pc(a)) % 2);
    }
}

/// If x % 2 == y % 2 then (x + d) % 2 == (y + d) % 2.
pub proof fn lemma_mod_sum_cancel(x: nat, y: nat, d: nat)
    requires
        x % 2 == y % 2,
    ensures
        (d + x) % 2 == (d + y) % 2,
{
    lemma_mul_mod_noop_general(1, x as int, 2);
    assert((d + x) % 2 == (d + y) % 2) by (nonlinear_arith)
        requires
            x % 2 == y % 2,
    {
    }
}

/// Signs multiply by adding parities.
pub proof fn lemma_psign_mul(x: nat, y: nat)
    ensures
        psign(x) * psign(y) == psign(x + y),
{
    assert(psign(x) * psign(y) == psign(x + y)) by (nonlinear_arith)
        requires
            psign(x) == (if x % 2 == 0 { 1int } else { -1int }),
            psign(y) == (if y % 2 == 0 { 1int } else { -1int }),
            psign(x + y) == (if (x + y) % 2 == 0 { 1int } else { -1int }),
    {
    }
}

/// Equal parities give equal signs.
pub proof fn lemma_psign_congruent(x: nat, y: nat)
    requires
        x % 2 == y % 2,
    ensures
        psign(x) == psign(y),
{
}

/// A mask and itself share every bit.
pub proof fn lemma_nband_self(m: nat)
    ensures
        nband(m, m) == m,
    decreases m,
{
    if m != 0 {
        lemma_nband_self(m / 2);
    }
}

/// A single-bit mask has no commuting pairs with itself.
pub proof fn lemma_cross_pow2_self(g: nat)
    ensures
        cross(pow2(g), pow2(g)) == 0,
    decreases g,
{
    if g == 0 {
        lemma2_to64();
        assert(cross(1, 1) == pc(0) + cross(0, 0));
    } else {
        lemma_pow2_unfold(g);
        lemma_pow2_positive((g - 1) as nat);
        assert(pow2(g) % 2 == 0 && pow2(g) / 2 == pow2((g - 1) as nat));
        lemma_cross_pow2_self((g - 1) as nat);
    }
}

/// Count the set bits of a 16-bit mask.
pub fn popcount(m: u16) -> (r: u32)
    ensures
        r as nat == pc(m as nat),
        r <= 16,
{
    let mut x: u16 = m;
    let mut c: u32 = 0;
    let ghost mut steps: nat = 0;
    proof {
        lemma2_to64();
    }
    while x != 0
        invariant
            c as nat + pc(x as nat) == pc(m as nat),
            steps <= 16,
            c as nat <= steps,
            (x as nat) < pow2((16 - steps) as nat),
        decreases x as nat,
    {
        proof {
            lemma_u16_low(x);
            if steps == 16 {
                lemma2_to64();
                assert(false);
            }
            lemma_pow2_unfold((16 - steps) as nat);
            assert((x as nat) / 2 < pow2((16 - (steps + 1)) as nat)) by (nonlinear_arith)
                requires
                    (x as nat) < 2 * pow2((16 - (steps + 1)) as nat),
                    pow2((16 - (steps + 1)) as nat) > 0,
            {
            }
            lemma_pow2_positive((16 - (steps + 1)) as nat);
        }
        c = c + (x & 1) as u32;
        x = x >> 1u16;
        proof {
            steps = steps + 1;
        }
    }
    c
}

} // verus!
