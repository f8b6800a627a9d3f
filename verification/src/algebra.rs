//! The algebra core: basis blades, the geometric product, grading and duality.
//!
//! A geometric algebra is given by the squares of its generators.  A basis
//! blade is a scalar together with a bitmask over generators (bit i set means
//! generator i is a factor).  The geometric product combines two blades by
//! interleaving their generators — each transposition flips the sign — and
//! contracting every doubled generator through its defining square.

use vstd::prelude::*;
use vstd::multiset::Multiset;
use vstd::arithmetic::power2::pow2;
use vstd::arithmetic::power2::lemma_pow2_unfold;
use vstd::arithmetic::power2::lemma2_to64;
use vstd::bits::lemma_usize_shl_is_mul;
use crate::bitops::pc;
use crate::bitops::nxor;
use crate::bitops::nband;
use crate::bitops::cross;
use crate::bitops::comm_fold;
use crate::bitops::psign;
use crate::bitops::bits_of;
use crate::bitops::popcount;
use crate::bitops::lemma_u16_low;
use crate::bitops::lemma_u16_xor;
use crate::bitops::lemma_u16_and;
use crate::bitops::lemma_pow2_positive;
use crate::bitops::lemma_nband_le;
use crate::bitops::lemma_nxor_bound;
use crate::bitops::lemma_comm_cross;
use crate::bitops::lemma_psign_congruent;

verus! {

/// A geometric algebra, defined by the squares of its generators.
pub struct GeometricAlgebra {
    pub generator_squares: Vec<i64>,
}

/// A single basis blade: a scalar weight and a generator bitmask.
#[derive(Clone, Copy, PartialEq, Eq, Structural, Hash, Debug)]
pub struct BasisElement {
    pub scalar: i64,
    pub index: u16,
}

impl GeometricAlgebra {
    /// Generator squares as mathematical integers.
    pub open spec fn squares(&self) -> Seq<int> {
        self.generator_squares@.map_values(|x: i64| x as int)
    }

    /// Number of generators.
    pub open spec fn n(&self) -> nat {
        self.generator_squares@.len()
    }

    /// The blade index type carries one bit per generator.
    pub open spec fn wf(&self) -> bool {
        self.n() <= 16
    }

    /// Number of basis blades of the algebra.
    pub open spec fn basis_size_spec(&self) -> nat {
        pow2(self.n())
    }

    /// Number of basis blades in the algebra (2^n).
    pub fn basis_size(&self) -> (r: usize)
        requires
            self.wf(),
        ensures
            r == self.basis_size_spec(),
            r >= 1,
    {
        proof {
            lemma_pow2_positive(self.n());
            lemma2_to64();
            assert(pow2(16) == 65536);
            if self.n() < 16 {
                vstd::arithmetic::power2::lemma_pow2_strictly_increases(self.n(), 16);
            }
            assert(1usize << self.generator_squares@.len() == 1usize * pow2(self.n())) by {
                lemma_usize_shl_is_mul(1usize, self.generator_squares@.len() as usize);
            }
        }
        1usize << self.generator_squares.len()
    }
}

/// Whether a value fits the scalar representation.
pub open spec fn i64_fits(x: int) -> bool {
    i64::MIN <= x <= i64::MAX
}

/// Product of the generator squares selected by the set bits of `m`.
pub open spec fn sqp(sq: Seq<int>, m: nat) -> int
    decreases m,
{
    if m == 0 {
        1
    } else if sq.len() == 0 {
        1
    } else {
        (if m % 2 == 1 {
            sq[0]
        } else {
            1int
        }) * sqp(sq.skip(1), m / 2)
    }
}

/// Every intermediate value of the square-contraction fold fits in a scalar.
pub open spec fn fold_fits(s: int, sq: Seq<int>, m: nat) -> bool
    decreases m,
{
    i64_fits(s) && (if m != 0 && sq.len() != 0 {
        fold_fits(
            s * (if m % 2 == 1 {
                sq[0]
            } else {
                1int
            }),
            sq.skip(1),
            m / 2,
        )
    } else {
        true
    })
}

/// Scalar of the geometric product of two blades, as a mathematical integer.
pub open spec fn sp_scalar(sa: int, ia: nat, sb: int, ib: nat, sq: Seq<int>) -> int {
    sa * sb * psign(cross(ia, ib)) * sqp(sq, nband(ia, ib))
}

/// Index of the geometric product of two blades.
pub open spec fn sp_index(ia: nat, ib: nat) -> nat {
    nxor(ia, ib)
}

/// The machine-width precondition of the executable geometric product.
pub open spec fn product_fits(sa: int, ia: nat, sb: int, ib: nat, sq: Seq<int>) -> bool {
    i64_fits(sa * sb) && fold_fits(sa * sb * psign(cross(ia, ib)), sq, nband(ia, ib))
}

impl BasisElement {
    /// Constructs a basis element from its index with scalar 1.
    pub fn from_index(index: u16) -> (r: BasisElement)
        ensures
            r.scalar == 1,
            r.index == index,
    {
        BasisElement { scalar: 1, index }
    }

    /// Number of basis vectors in the element.
    pub fn grade(&self) -> (r: usize)
        ensures
            r == pc(self.index as nat),
            r <= 16,
    {
        popcount(self.index) as usize
    }

    /// The bit positions of the basis vectors present in the element,
    /// in ascending order.
    pub fn component_bits(&self) -> (r: Vec<usize>)
        ensures
            r@.map_values(|x: usize| x as nat) == bits_of(self.index as nat, 0),
            forall|k: int| 0 <= k < r@.len() ==> (#[trigger] r@[k]) < 16,
    {
        let mut out: Vec<usize> = Vec::new();
        let mut x: u16 = self.index;
        let mut pos: usize = 0;
        proof {
            lemma2_to64();
            assert(bits_of(self.index as nat, 0) == out@.map_values(|q: usize| q as nat) + bits_of(
                x as nat,
                pos as nat,
            ));
        }
        while x != 0
            invariant
                pos <= 16,
                (x as nat) < pow2((16 - pos) as nat),
                forall|k: int| 0 <= k < out@.len() ==> (#[trigger] out@[k]) < 16,
                bits_of(self.index as nat, 0) == out@.map_values(|q: usize| q as nat) + bits_of(
                    x as nat,
                    pos as nat,
                ),
            decreases x as nat,
        {
            proof {
                lemma_u16_low(x);
                if pos == 16 {
                    lemma2_to64();
                    assert(false);
                }
                lemma_pow2_unfold((16 - pos) as nat);
                assert((x as nat) / 2 < pow2((16 - (pos + 1)) as nat)) by (nonlinear_arith)
                    requires
                        (x as nat) < 2 * pow2((16 - (pos + 1)) as nat),
                        pow2((16 - (pos + 1)) as nat) > 0,
                {
                }
                lemma_pow2_positive((16 - (pos + 1)) as nat);
            }
            if x & 1 == 1 {
                let ghost old_out = out@;
                out.push(pos);
                proof {
                    assert(out@.map_values(|q: usize| q as nat) == old_out.map_values(
                        |q: usize| q as nat,
                    ) + seq![pos as nat]);
                    assert(bits_of(x as nat, pos as nat) == seq![pos as nat] + bits_of(
                        (x as nat) / 2,
                        pos as nat + 1,
                    ));
                }
            } else {
                proof {
                    assert(bits_of(x as nat, pos as nat) == bits_of((x as nat) / 2, pos as nat + 1));
                }
            }
            x = x >> 1u16;
            pos = pos + 1;
        }
        proof {
            assert(bits_of(x as nat, pos as nat) =~= Seq::<nat>::empty());
            assert(bits_of(self.index as nat, 0) =~= out@.map_values(|q: usize| q as nat));
        }
        out
    }

    /// Geometric product of two blades.  Walks the set bits of `a` from low to
    /// high, counting hurdle bits for the commutation sign, contracts doubled
    /// generators through their squares, and combines the masks by exclusive or.
    pub fn product(a: &BasisElement, b: &BasisElement, algebra: &GeometricAlgebra) -> (r:
        BasisElement)
        requires
            algebra.wf(),
            (a.index as nat) < algebra.basis_size_spec(),
            (b.index as nat) < algebra.basis_size_spec(),
            product_fits(
                a.scalar as int,
                a.index as nat,
                b.scalar as int,
                b.index as nat,
                algebra.squares(),
            ),
        ensures
            r.index as nat == sp_index(a.index as nat, b.index as nat),
            (r.index as nat) < algebra.basis_size_spec(),
            r.scalar as int == sp_scalar(
                a.scalar as int,
                a.index as nat,
                b.scalar as int,
                b.index as nat,
                algebra.squares(),
            ),
    {
        let ghost ia = a.index as nat;
        let ghost ib = b.index as nat;
        let ghost sq = algebra.squares();
        let sgn = commutation_sign(a.index, b.index);

        // Base scalar with the commutation sign applied.
        let ab: i64 = a.scalar * b.scalar;
        let acc0: i64 = if sgn == 1 {
            proof {
                assert((a.scalar as int) * (b.scalar as int) * 1int == (a.scalar as int) * (
                b.scalar as int));
            }
            ab
        } else {
            proof {
                assert(i64_fits((a.scalar as int) * (b.scalar as int) * -1));
                assert((a.scalar as int) * (b.scalar as int) * -1 == -((a.scalar as int) * (
                b.scalar as int)));
            }
            -ab
        };
        let ghost s0 = (a.scalar as int) * (b.scalar as int) * psign(cross(ia, ib));
        assert(acc0 as int == s0);

        // Contract doubled generators through their squares.
        let mut acc: i64 = acc0;
        let mut mk: u16 = a.index & b.index;
        let mut d: usize = 0;
        proof {
            lemma_u16_and(a.index, b.index);
            lemma_nband_le(ia, ib);
            assert(sq.skip(0) =~= sq);
            assert(fold_fits(acc as int, sq.skip(0), nband(ia, ib)));
            assert((acc as int) * sqp(sq.skip(0), mk as nat) == s0 * sqp(sq, nband(ia, ib)))
                by (nonlinear_arith)
                requires
                    acc as int == s0,
                    sq.skip(0) =~= sq,
                    mk as nat == nband(ia, ib),
            {
            }
        }
        while mk != 0
            invariant
                algebra.wf(),
                sq == algebra.squares(),
                d <= algebra.n(),
                (mk as nat) < pow2((algebra.n() - d) as nat),
                fold_fits(acc as int, sq.skip(d as int), mk as nat),
                (acc as int) * sqp(sq.skip(d as int), mk as nat) == s0 * sqp(sq, nband(ia, ib)),
            decreases mk as nat,
        {
            proof {
                lemma_u16_low(mk);
                if d == algebra.n() {
                    lemma2_to64();
                    assert(false);
                }
                lemma_pow2_unfold((algebra.n() - d) as nat);
                assert((mk as nat) / 2 < pow2((algebra.n() - (d + 1)) as nat)) by (nonlinear_arith)
                    requires
                        (mk as nat) < 2 * pow2((algebra.n() - (d + 1)) as nat),
                        pow2((algebra.n() - (d + 1)) as nat) > 0,
                {
                }
                assert(sq.len() == algebra.n());
                assert(sq.skip(d as int).len() == algebra.n() - d);
                assert(sq.skip(d as int).skip(1) =~= sq.skip(d as int + 1));
            }
            let ghost acc_old = acc as int;
            let ghost mk_old = mk as nat;
            if mk & 1 == 1 {
                proof {
                    assert(sq.skip(d as int)[0] == sq[d as int]);
                    assert(fold_fits(
                        acc_old * sq[d as int],
                        sq.skip(d as int + 1),
                        mk_old / 2,
                    ));
                    assert(i64_fits(acc_old * sq[d as int]));
                }
                acc = acc * algebra.generator_squares[d];
                proof {
                    assert(algebra.generator_squares@[d as int] as int == sq[d as int]);
                    assert(sqp(sq.skip(d as int), mk_old) == sq[d as int] * sqp(
                        sq.skip(d as int + 1),
                        mk_old / 2,
                    ));
                    assert((acc as int) * sqp(sq.skip(d as int + 1), mk_old / 2) == acc_old * sqp(
                        sq.skip(d as int),
                        mk_old,
                    )) by (nonlinear_arith)
                        requires
                            acc as int == acc_old * sq[d as int],
                            sqp(sq.skip(d as int), mk_old) == sq[d as int] * sqp(
                                sq.skip(d as int + 1),
                                mk_old / 2,
                            ),
                    {
                    }
                }
            } else {
                proof {
                    assert(sqp(sq.skip(d as int), mk_old) == 1 * sqp(
                        sq.skip(d as int + 1),
                        mk_old / 2,
                    ));
                }
            }
            mk = mk >> 1u16;
            d = d + 1;
        }
        proof {
            assert(sqp(sq.skip(d as int), 0) == 1);
            assert((acc as int) * 1 == acc as int);
            assert(acc as int == s0 * sqp(sq, nband(ia, ib)));
        }

        // Combine the masks.
        let idx: u16 = a.index ^ b.index;
        proof {
            lemma_u16_xor(a.index, b.index);
            lemma_nxor_bound(ia, ib, algebra.n());
        }
        BasisElement { scalar: acc, index: idx }
    }

    /// Dual of the element: the complement mask, oriented by the scalar of the
    /// product of the element with its complement.
    pub fn dual(&self, algebra: &GeometricAlgebra) -> (r: BasisElement)
        requires
            algebra.wf(),
            (self.index as nat) < algebra.basis_size_spec(),
            (self.scalar as int) * (self.scalar as int) <= i64::MAX,
            -(i64::MAX as int) <= (self.scalar as int) * (self.scalar as int) * (
            self.scalar as int) <= i64::MAX,
        ensures
            r.index as nat == complement(algebra.n(), self.index as nat),
            (r.index as nat) < algebra.basis_size_spec(),
            r.scalar as int == spec_dual_scalar(
                self.scalar as int,
                self.index as nat,
                algebra.n(),
                algebra.squares(),
            ),
    {
        let ghost i = self.index as nat;
        let ghost s = self.scalar as int;
        let ghost sq = algebra.squares();
        let size = algebra.basis_size();
        let comp_wide: usize = size - 1 - (self.index as usize);
        proof {
            lemma2_to64();
            if algebra.n() < 16 {
                vstd::arithmetic::power2::lemma_pow2_strictly_increases(algebra.n(), 16);
            }
            assert(comp_wide == complement(algebra.n(), i));
            assert(comp_wide < 65536);
        }
        let comp: u16 = comp_wide as u16;
        let r0 = BasisElement { scalar: self.scalar, index: comp };
        proof {
            lemma_complement(i, algebra.n());
            assert(sqp(sq, nband(i, comp as nat)) == 1);
            assert(s * s >= 0) by (nonlinear_arith);
            assert(s * s * psign(cross(i, comp as nat)) == s * s || s * s * psign(
                cross(i, comp as nat),
            ) == -(s * s)) by (nonlinear_arith)
                requires
                    psign(cross(i, comp as nat)) == 1 || psign(cross(i, comp as nat)) == -1,
            {
            }
            assert(i64_fits(s * s * psign(cross(i, comp as nat))));
            assert(fold_fits(s * s * psign(cross(i, comp as nat)), sq, nband(i, comp as nat)));
        }
        let p = BasisElement::product(self, &r0, algebra);
        proof {
            let sigma = psign(cross(i, comp as nat));
            assert(p.scalar as int == s * s * sigma * 1);
            assert(s * (s * s * sigma * 1) == s * s * s * sigma) by (nonlinear_arith);
            assert(i64_fits(s * s * s * sigma)) by (nonlinear_arith)
                requires
                    sigma == 1 || sigma == -1,
                    -(i64::MAX as int) <= s * s * s <= i64::MAX,
            {
            }
        }
        let out_scalar: i64 = self.scalar * p.scalar;
        BasisElement { scalar: out_scalar, index: comp }
    }

    /// Strict canonical order on blades: by grade, ties broken by the owner of
    /// the lowest differing mask bit.
    pub fn canonical_lt(a: &BasisElement, b: &BasisElement) -> (r: bool)
        ensures
            r == canon_lt(a.index as nat, b.index as nat),
    {
        let ga = popcount(a.index);
        let gb = popcount(b.index);
        if ga != gb {
            return ga < gb;
        }
        if a.index == b.index {
            proof {
                lemma_ldb_irreflexive(a.index as nat);
            }
            return false;
        }
        let mut x: u16 = a.index;
        let mut y: u16 = b.index;
        while (x & 1) == (y & 1)
            invariant
                x as nat != y as nat,
                ldb_first(a.index as nat, b.index as nat) == ldb_first(x as nat, y as nat),
            decreases x as nat + y as nat,
        {
            proof {
                lemma_u16_low(x);
                lemma_u16_low(y);
                assert((x as nat) / 2 != (y as nat) / 2);
            }
            x = x >> 1u16;
            y = y >> 1u16;
        }
        proof {
            lemma_u16_low(x);
            lemma_u16_low(y);
        }
        (x & 1) == 1
    }
}

/// Commutation sign of the geometric product of two masks: the hurdle walk.
/// Processes the set bits of `a` from low to high; for each, counts the bits
/// of `a` strictly above it and the bits of the evolving second mask strictly
/// below it, and accumulates the parity of the total.
fn commutation_sign(a: u16, b: u16) -> (r: i64)
    ensures
        r == psign(cross(a as nat, b as nat)),
        r == 1 || r == -1,
{
    let mut x: u16 = a;
    let mut y: u16 = b;
    let mut low: u32 = 0;
    let mut comm: u32 = 0;
    let ghost mut steps: nat = 0;
    proof {
        lemma2_to64();
        assert((x as nat) < pow2(16));
    }
    while x != 0
        invariant
            steps <= 16,
            low <= steps,
            comm <= 32 * steps,
            comm as nat + comm_fold(x as nat, y as nat, low as nat) == comm_fold(
                a as nat,
                b as nat,
                0,
            ),
            (x as nat) < pow2((16 - steps) as nat),
        decreases x as nat,
    {
        proof {
            lemma_u16_low(x);
            lemma_u16_low(y);
            if steps == 16 {
                lemma2_to64();
                assert(false);
            }
            lemma_pow2_unfold((16 - steps) as nat);
            assert((x as nat) / 2 < pow2((16 - (steps + 1)) as nat)) by (nonlinear_arith)
                requires
                    (x as nat) < 2 * pow2((16 - (steps + 1)) as nat),
                    pow2((16 - (steps + 1)) as nat) > 0,
            {
            }
        }
        if x & 1 == 1 {
            let hurdles_a = popcount(x >> 1u16);
            comm = comm + hurdles_a + low;
            if y & 1 == 0 {
                low = low + 1;
            }
        } else {
            low = low + (y & 1) as u32;
        }
        x = x >> 1u16;
        y = y >> 1u16;
        proof {
            steps = steps + 1;
        }
    }
    proof {
        assert(comm_fold(x as nat, y as nat, low as nat) == 0);
        assert(comm as nat == comm_fold(a as nat, b as nat, 0));
        lemma_comm_cross(a as nat, b as nat, 0);
        assert((comm as nat) % 2 == cross(a as nat, b as nat) % 2);
        lemma_psign_congruent(comm as nat, cross(a as nat, b as nat));
    }
    if comm % 2 == 0 {
        1
    } else {
        -1
    }
}

impl BasisElement {
    /// Geometric product that reports, instead of presupposing, that every
    /// intermediate scalar fits the representation: `None` exactly when the
    /// computation would leave the scalar range.
    pub fn try_product(a: &BasisElement, b: &BasisElement, algebra: &GeometricAlgebra) -> (r:
        Option<BasisElement>)
        requires
            algebra.wf(),
            (a.index as nat) < algebra.basis_size_spec(),
            (b.index as nat) < algebra.basis_size_spec(),
        ensures
            match r {
                Some(e) => product_fits(
                    a.scalar as int,
                    a.index as nat,
                    b.scalar as int,
                    b.index as nat,
                    algebra.squares(),
                ) && e.index as nat == sp_index(a.index as nat, b.index as nat) && (
                e.index as nat) < algebra.basis_size_spec() && e.scalar as int == sp_scalar(
                    a.scalar as int,
                    a.index as nat,
                    b.scalar as int,
                    b.index as nat,
                    algebra.squares(),
                ),
                None => !product_fits(
                    a.scalar as int,
                    a.index as nat,
                    b.scalar as int,
                    b.index as nat,
                    algebra.squares(),
                ),
            },
    {
        let ghost ia = a.index as nat;
        let ghost ib = b.index as nat;
        let ghost sq = algebra.squares();
        let sgn = commutation_sign(a.index, b.index);

        proof {
            assert(-0x4000_0000_0000_0000_0000_0000_0000_0000 <= (a.scalar as int) * (
            b.scalar as int) <= 0x4000_0000_0000_0000_0000_0000_0000_0000) by (nonlinear_arith)
                requires
                    -0x8000_0000_0000_0000 <= a.scalar as int <= 0x7fff_ffff_ffff_ffff,
                    -0x8000_0000_0000_0000 <= b.scalar as int <= 0x7fff_ffff_ffff_ffff,
            {
            }
        }
        let wide: i128 = (a.scalar as i128) * (b.scalar as i128);
        if wide > i64::MAX as i128 || wide < i64::MIN as i128 {
            return None;
        }
        let signed: i128 = wide * (sgn as i128);
        proof {
            assert(signed == (a.scalar as int) * (b.scalar as int) * psign(cross(ia, ib)));
        }
        if signed > i64::MAX as i128 || signed < i64::MIN as i128 {
            return None;
        }
        let ghost s0 = (a.scalar as int) * (b.scalar as int) * psign(cross(ia, ib));

        let mut acc: i64 = signed as i64;
        let mut mk: u16 = a.index & b.index;
        let mut d: usize = 0;
        proof {
            lemma_u16_and(a.index, b.index);
            lemma_nband_le(ia, ib);
            assert(sq.skip(0) =~= sq);
            assert((acc as int) * sqp(sq.skip(0), mk as nat) == s0 * sqp(sq, nband(ia, ib)))
                by (nonlinear_arith)
                requires
                    acc as int == s0,
                    sq.skip(0) =~= sq,
                    mk as nat == nband(ia, ib),
            {
            }
        }
        while mk != 0
            invariant
                algebra.wf(),
                sq == algebra.squares(),
                ia == a.index as nat,
                ib == b.index as nat,
                s0 == (a.scalar as int) * (b.scalar as int) * psign(cross(ia, ib)),
                i64_fits((a.scalar as int) * (b.scalar as int)),
                d <= algebra.n(),
                (mk as nat) < pow2((algebra.n() - d) as nat),
                i64_fits(acc as int),
                (acc as int) * sqp(sq.skip(d as int), mk as nat) == s0 * sqp(sq, nband(ia, ib)),
                fold_fits(s0, sq, nband(ia, ib)) <==> fold_fits(
                    acc as int,
                    sq.skip(d as int),
                    mk as nat,
                ),
            decreases mk as nat,
        {
            proof {
                lemma_u16_low(mk);
                if d == algebra.n() {
                    lemma2_to64();
                    assert(false);
                }
                lemma_pow2_unfold((algebra.n() - d) as nat);
                assert((mk as nat) / 2 < pow2((algebra.n() - (d + 1)) as nat)) by (nonlinear_arith)
                    requires
                        (mk as nat) < 2 * pow2((algebra.n() - (d + 1)) as nat),
                        pow2((algebra.n() - (d + 1)) as nat) > 0,
                {
                }
                assert(sq.len() == algebra.n());
                assert(sq.skip(d as int).len() == algebra.n() - d);
                assert(sq.skip(d as int).skip(1) =~= sq.skip(d as int + 1));
            }
            let ghost acc_old = acc as int;
            let ghost mk_old = mk as nat;
            if mk & 1 == 1 {
                proof {
                    assert(sq.skip(d as int)[0] == sq[d as int]);
                    assert(sqp(sq.skip(d as int), mk_old) == sq[d as int] * sqp(
                        sq.skip(d as int + 1),
                        mk_old / 2,
                    ));
                }
                proof {
                    assert(algebra.generator_squares@[d as int] as int == sq[d as int]);
                    assert(-0x4000_0000_0000_0000_0000_0000_0000_0000 <= acc_old * sq[d as int]
                        <= 0x4000_0000_0000_0000_0000_0000_0000_0000) by (nonlinear_arith)
                        requires
                            -0x8000_0000_0000_0000 <= acc_old <= 0x7fff_ffff_ffff_ffff,
                            -0x8000_0000_0000_0000 <= sq[d as int] <= 0x7fff_ffff_ffff_ffff,
                    {
                    }
                }
                let stepped: i128 = (acc as i128) * (algebra.generator_squares[d] as i128);
                proof {
                    assert(stepped == acc_old * sq[d as int]);
                }
                if stepped > i64::MAX as i128 || stepped < i64::MIN as i128 {
                    proof {
                        assert(!i64_fits(acc_old * sq[d as int]));
                        assert(!fold_fits(acc_old * sq[d as int], sq.skip(d as int + 1), mk_old / 2));
                        assert(!fold_fits(acc_old, sq.skip(d as int), mk_old));
                        assert(!fold_fits(s0, sq, nband(ia, ib)));
                        assert(!product_fits(
                            a.scalar as int,
                            a.index as nat,
                            b.scalar as int,
                            b.index as nat,
                            algebra.squares(),
                        ));
                    }
                    return None;
                }
                acc = stepped as i64;
                proof {
                    assert((acc as int) * sqp(sq.skip(d as int + 1), mk_old / 2) == acc_old * sqp(
                        sq.skip(d as int),
                        mk_old,
                    )) by (nonlinear_arith)
                        requires
                            acc as int == acc_old * sq[d as int],
                            sqp(sq.skip(d as int), mk_old) == sq[d as int] * sqp(
                                sq.skip(d as int + 1),
                                mk_old / 2,
                            ),
                    {
                    }
                    assert(fold_fits(acc_old, sq.skip(d as int), mk_old) <==> fold_fits(
                        acc as int,
                        sq.skip(d as int + 1),
                        mk_old / 2,
                    ));
                }
            } else {
                proof {
                    assert(sqp(sq.skip(d as int), mk_old) == 1 * sqp(
                        sq.skip(d as int + 1),
                        mk_old / 2,
                    ));
                    assert((acc as int) * 1 == acc as int);
                }
            }
            mk = mk >> 1u16;
            d = d + 1;
        }
        proof {
            assert(sqp(sq.skip(d as int), 0) == 1);
            assert((acc as int) * 1 == acc as int);
            assert(acc as int == s0 * sqp(sq, nband(ia, ib)));
            assert(fold_fits(acc as int, sq.skip(d as int), 0));
        }
        let idx: u16 = a.index ^ b.index;
        proof {
            lemma_u16_xor(a.index, b.index);
            lemma_nxor_bound(ia, ib, algebra.n());
        }
        Some(BasisElement { scalar: acc, index: idx })
    }
}

impl BasisElement {
    /// Parses a blade token: an optional leading `-`, then either `1` for the
    /// scalar blade or `e` followed by hexadecimal generator digits.  The
    /// blade is built by multiplying the single-generator blades in digit
    /// order, so the order of digits affects the resulting sign through the
    /// commutation rule.
    pub fn parse(name: &str, algebra: &GeometricAlgebra) -> (r: Result<
        BasisElement,
        AlgebraError,
    >)
        requires
            algebra.wf(),
        ensures
            match r {
                Ok(e) => parse_shape_ok(name@) && parse_range_ok(name@, algebra.n()) && parse_fits(
                    name@,
                    algebra.squares(),
                ) && e.scalar as int == spec_parse(name@, algebra.squares()).0 && e.index as nat
                    == spec_parse(name@, algebra.squares()).1 && (e.index as nat)
                    < algebra.basis_size_spec(),
                Err(AlgebraError::BadSyntax) => !parse_shape_ok(name@),
                Err(AlgebraError::DigitOutOfRange) => parse_shape_ok(name@) && !parse_range_ok(
                    name@,
                    algebra.n(),
                ),
                Err(AlgebraError::Overflow) => parse_shape_ok(name@) && parse_range_ok(
                    name@,
                    algebra.n(),
                ) && !parse_fits(name@, algebra.squares()),
            },
    {
        let ghost s = name@;
        let ghost sq = algebra.squares();
        let n_gen = algebra.generator_squares.len();
        let len = name.unicode_len();
        let neg = len > 0 && name.get_char(0) == '-';
        let start: usize = if neg {
            1
        } else {
            0
        };
        proof {
            assert(blade_body(s) =~= s.skip(start as int));
            assert(blade_sign(s) == if neg {
                -1int
            } else {
                1int
            });
            lemma_pow2_positive(algebra.n());
        }
        let ghost body = blade_body(s);

        // The scalar blade.
        if len == start + 1 && name.get_char(start) == '1' {
            proof {
                assert(is_scalar_form(body));
                assert(!is_e_form(body));
            }
            return Ok(BasisElement { scalar: if neg { -1 } else { 1 }, index: 0 });
        }
        // Otherwise the body must be `e` followed by digits.
        if len == start || name.get_char(start) != 'e' {
            proof {
                assert(!is_scalar_form(body));
                if len > start {
                    assert(body[0] == s[start as int]);
                    assert(!is_e_form(body));
                }
            }
            return Err(AlgebraError::BadSyntax);
        }
        // Every remaining character must be a hexadecimal digit.
        let mut k: usize = start + 1;
        while k < len
            invariant
                s == name@,
                start + 1 <= k <= len,
                len == s.len(),
                body == s.skip(start as int),
                body == blade_body(s),
                forall|p: int| start + 1 <= p < k ==> is_hex_digit(#[trigger] s[p]),
            decreases len - k,
        {
            if hex_digit_val(name.get_char(k)).is_none() {
                proof {
                    assert(body[k - start] == s[k as int]);
                    assert(!is_e_form(body));
                    assert(!is_scalar_form(body));
                }
                return Err(AlgebraError::BadSyntax);
            }
            k = k + 1;
        }
        proof {
            assert forall|j: int| 1 <= j < body.len() implies is_hex_digit(#[trigger] body[j]) by {
                assert(body[j] == s[j + start]);
            }
            assert(is_e_form(body));
        }
        // Every digit must name a generator of the algebra.
        k = start + 1;
        while k < len
            invariant
                s == name@,
                start + 1 <= k <= len,
                len == s.len(),
                body == s.skip(start as int),
                body == blade_body(s),
                is_e_form(body),
                n_gen == algebra.n(),
                forall|p: int| start + 1 <= p < len ==> is_hex_digit(#[trigger] s[p]),
                forall|p: int| start + 1 <= p < k ==> hex_val(#[trigger] s[p]) < n_gen,
            decreases len - k,
        {
            match hex_digit_val(name.get_char(k)) {
                Some(v) => {
                    if v as usize >= n_gen {
                        proof {
                            assert(body[k - start] == s[k as int]);
                            assert(!parse_range_ok(s, algebra.n()));
                        }
                        return Err(AlgebraError::DigitOutOfRange);
                    }
                },
                None => {
                    proof {
                        assert(body[k - start] == s[k as int]);
                        assert(false);
                    }
                },
            }
            k = k + 1;
        }
        proof {
            assert forall|j: int| 1 <= j < body.len() implies hex_val(#[trigger] body[j])
                < algebra.n() by {
                assert(body[j] == s[j + start]);
            }
            assert(parse_range_ok(s, algebra.n()));
        }
        // Build the blade by repeated products with single-generator blades.
        let ghost digits = body.skip(1);
        let mut cur = BasisElement { scalar: if neg { -1i64 } else { 1i64 }, index: 0u16 };
        proof {
            lemma2_to64();
            assert(digits =~= s.skip(start as int + 1));
            assert(parse_fold(digits, sq, blade_sign(s), 0) == parse_fold(
                s.skip(start as int + 1),
                sq,
                cur.scalar as int,
                cur.index as nat,
            ));
        }
        k = start + 1;
        while k < len
            invariant
                algebra.wf(),
                sq == algebra.squares(),
                s == name@,
                start + 1 <= k <= len,
                len == s.len(),
                body == s.skip(start as int),
                body == blade_body(s),
                digits == s.skip(start as int + 1),
                is_e_form(body),
                n_gen == algebra.n(),
                forall|p: int| start + 1 <= p < len ==> is_hex_digit(#[trigger] s[p]),
                forall|p: int| start + 1 <= p < len ==> hex_val(#[trigger] s[p]) < n_gen,
                (cur.index as nat) < algebra.basis_size_spec(),
                parse_fold(digits, sq, blade_sign(s), 0) == parse_fold(
                    s.skip(k as int),
                    sq,
                    cur.scalar as int,
                    cur.index as nat,
                ),
                parse_fold_fits(digits, sq, blade_sign(s), 0) <==> parse_fold_fits(
                    s.skip(k as int),
                    sq,
                    cur.scalar as int,
                    cur.index as nat,
                ),
            decreases len - k,
        {
            let ghost rest = s.skip(k as int);
            proof {
                assert(rest.len() == len - k);
                assert(rest[0] == s[k as int]);
                assert(rest.skip(1) =~= s.skip(k as int + 1));
            }
            match hex_digit_val(name.get_char(k)) {
                Some(v) => {
                    proof {
                        assert(hex_val(s[k as int]) < n_gen);
                        assert(v < 16);
                        lemma2_to64();
                        if (v as nat) < 15 {
                            vstd::arithmetic::power2::lemma_pow2_strictly_increases(v as nat, 15);
                        }
                        vstd::bits::lemma_u16_shl_is_mul(1u16, v as u16);
                    }
                    let blade = BasisElement { scalar: 1i64, index: 1u16 << (v as u16) };
                    proof {
                        assert(blade.index as nat == pow2(v as nat));
                        if (v as nat) + 1 <= algebra.n() && (v as nat) + 1 < algebra.n() {
                            vstd::arithmetic::power2::lemma_pow2_strictly_increases(
                                (v as nat) + 1,
                                algebra.n(),
                            );
                        }
                        if (v as nat) < algebra.n() {
                            vstd::arithmetic::power2::lemma_pow2_strictly_increases(
                                v as nat,
                                algebra.n(),
                            );
                        }
                        assert((blade.index as nat) < algebra.basis_size_spec());
                    }
                    match BasisElement::try_product(&cur, &blade, algebra) {
                        Some(p) => {
                            proof {
                                assert(parse_fold(rest, sq, cur.scalar as int, cur.index as nat)
                                    == parse_fold(
                                    rest.skip(1),
                                    sq,
                                    sp_scalar(
                                        cur.scalar as int,
                                        cur.index as nat,
                                        1,
                                        pow2(hex_val(rest[0])),
                                        sq,
                                    ),
                                    sp_index(cur.index as nat, pow2(hex_val(rest[0]))),
                                ));
                            }
                            cur = p;
                        },
                        None => {
                            proof {
                                assert(!parse_fold_fits(
                                    rest,
                                    sq,
                                    cur.scalar as int,
                                    cur.index as nat,
                                ));
                                assert(!parse_fold_fits(digits, sq, blade_sign(s), 0));
                                assert(blade_body(s).skip(1) =~= digits);
                                assert(!parse_fits(s, sq));
                            }
                            return Err(AlgebraError::Overflow);
                        },
                    }
                },
                None => {
                    proof {
                        assert(body[k - start] == s[k as int]);
                        assert(false);
                    }
                },
            }
            k = k + 1;
        }
        proof {
            assert(s.skip(len as int) =~= Seq::<char>::empty());
            assert(parse_fold(s.skip(len as int), sq, cur.scalar as int, cur.index as nat) == (
            cur.scalar as int, cur.index as nat));
            assert(parse_fold_fits(s.skip(len as int), sq, cur.scalar as int, cur.index as nat));
            assert(parse_fits(s, sq));
            assert(spec_parse(s, sq) == parse_fold(digits, sq, blade_sign(s), 0));
        }
        Ok(cur)
    }
}

/// A configuration defect found while parsing a blade name.
#[derive(Clone, Copy, PartialEq, Eq, Structural, Debug)]
pub enum AlgebraError {
    /// The token is neither the scalar blade `1` nor `e` followed by
    /// hexadecimal digits, optionally preceded by `-`.
    BadSyntax,
    /// A generator digit names a generator the algebra does not have.
    DigitOutOfRange,
    /// An intermediate scalar left the representable range.
    Overflow,
}

/// Whether `c` is a hexadecimal digit, as `char::to_digit(16)` accepts them.
pub open spec fn is_hex_digit(c: char) -> bool {
    (48 <= c as u32 && c as u32 <= 57) || (97 <= c as u32 && c as u32 <= 102) || (65 <= c as u32
        && c as u32 <= 70)
}

/// Value of a hexadecimal digit.
pub open spec fn hex_val(c: char) -> nat {
    if 48 <= c as u32 && c as u32 <= 57 {
        (c as u32 - 48) as nat
    } else if 97 <= c as u32 && c as u32 <= 102 {
        (c as u32 - 87) as nat
    } else if 65 <= c as u32 && c as u32 <= 70 {
        (c as u32 - 55) as nat
    } else {
        0
    }
}

/// The blade token with its optional leading minus removed.
pub open spec fn blade_body(s: Seq<char>) -> Seq<char> {
    if s.len() > 0 && s[0] == '-' {
        s.skip(1)
    } else {
        s
    }
}

/// Sign carried by the optional leading minus.
pub open spec fn blade_sign(s: Seq<char>) -> int {
    if s.len() > 0 && s[0] == '-' {
        -1
    } else {
        1
    }
}

/// The body names the scalar blade.
pub open spec fn is_scalar_form(b: Seq<char>) -> bool {
    b.len() == 1 && b[0] == '1'
}

/// The body is `e` followed by hexadecimal generator digits.
pub open spec fn is_e_form(b: Seq<char>) -> bool {
    b.len() >= 1 && b[0] == 'e' && (forall|k: int| 1 <= k < b.len() ==> is_hex_digit(#[trigger] b[k]))
}

/// The token is syntactically a blade name.
pub open spec fn parse_shape_ok(s: Seq<char>) -> bool {
    is_scalar_form(blade_body(s)) || is_e_form(blade_body(s))
}

/// Every generator digit of the token names a generator of the algebra.
pub open spec fn parse_range_ok(s: Seq<char>, n_: nat) -> bool {
    is_e_form(blade_body(s)) ==> (forall|k: int|
        1 <= k < blade_body(s).len() ==> hex_val(#[trigger] blade_body(s)[k]) < n_)
}

/// Left fold of the parsed digits: each digit multiplies the blade built so
/// far by the corresponding single-generator blade.
pub open spec fn parse_fold(digits: Seq<char>, sq: Seq<int>, s: int, i: nat) -> (int, nat)
    decreases digits.len(),
{
    if digits.len() == 0 {
        (s, i)
    } else {
        let g = hex_val(digits[0]);
        parse_fold(
            digits.skip(1),
            sq,
            sp_scalar(s, i, 1, pow2(g), sq),
            sp_index(i, pow2(g)),
        )
    }
}

/// Every step of the parse fold stays within the scalar representation.
pub open spec fn parse_fold_fits(digits: Seq<char>, sq: Seq<int>, s: int, i: nat) -> bool
    decreases digits.len(),
{
    if digits.len() == 0 {
        true
    } else {
        let g = hex_val(digits[0]);
        product_fits(s, i, 1, pow2(g), sq) && parse_fold_fits(
            digits.skip(1),
            sq,
            sp_scalar(s, i, 1, pow2(g), sq),
            sp_index(i, pow2(g)),
        )
    }
}

/// Whether parsing the token stays within the scalar representation.
pub open spec fn parse_fits(s: Seq<char>, sq: Seq<int>) -> bool {
    if is_e_form(blade_body(s)) {
        parse_fold_fits(blade_body(s).skip(1), sq, blade_sign(s), 0)
    } else {
        true
    }
}

/// The blade a well-formed token denotes, as scalar and index.
pub open spec fn spec_parse(s: Seq<char>, sq: Seq<int>) -> (int, nat) {
    if is_e_form(blade_body(s)) {
        parse_fold(blade_body(s).skip(1), sq, blade_sign(s), 0)
    } else {
        (blade_sign(s), 0)
    }
}

/// Classifies a character as a hexadecimal digit.
fn hex_digit_val(c: char) -> (r: Option<u32>)
    ensures
        match r {
            Some(v) => is_hex_digit(c) && v as nat == hex_val(c) && v < 16,
            None => !is_hex_digit(c),
        },
{
    let u = c as u32;
    if 48 <= u && u <= 57 {
        Some(u - 48)
    } else if 97 <= u && u <= 102 {
        Some(u - 87)
    } else if 65 <= u && u <= 70 {
        Some(u - 55)
    } else {
        None
    }
}

/// Complement mask within an algebra of `n_` generators.
pub open spec fn complement(n_: nat, i: nat) -> nat {
    (pow2(n_) - 1 - i) as nat
}

/// Scalar of the dual of a blade: the blade's scalar times the scalar of the
/// geometric product of the blade with its complement.
pub open spec fn spec_dual_scalar(s: int, i: nat, n_: nat, sq: Seq<int>) -> int {
    s * sp_scalar(s, i, s, complement(n_, i), sq)
}

/// A mask and its complement are disjoint, exhaust the algebra, and split the
/// generator count between them.
pub proof fn lemma_complement(i: nat, k: nat)
    requires
        i < pow2(k),
    ensures
        complement(k, i) < pow2(k),
        nband(i, complement(k, i)) == 0,
        nxor(i, complement(k, i)) == (pow2(k) - 1) as nat,
        pc(i) + pc(complement(k, i)) == k,
        complement(k, complement(k, i)) == i,
    decreases k,
{
    lemma_pow2_positive(k);
    if k == 0 {
        lemma2_to64();
    } else {
        lemma_pow2_unfold(k);
        let p = pow2((k - 1) as nat);
        lemma_pow2_positive((k - 1) as nat);
        let c = complement(k, i);
        assert(c == 2 * p - 1 - i);
        assert(i / 2 < p) by (nonlinear_arith)
            requires
                i < 2 * p,
                p > 0,
        {
        }
        assert(c % 2 == 1 - i % 2 && c / 2 == p - 1 - i / 2) by (nonlinear_arith)
            requires
                c == 2 * p - 1 - i,
                p > 0,
                i < 2 * p,
        {
        }
        lemma_complement(i / 2, (k - 1) as nat);
        assert(nband(i, c) == 2 * nband(i / 2, c / 2));
        assert(nxor(i, c) == 1 + 2 * nxor(i / 2, c / 2));
        assert(pc(c) == c % 2 + pc(c / 2));
        assert(complement(k, c) == 2 * p - 1 - c);
    }
}

/// Whether the lowest bit at which `i` and `j` differ belongs to `i`.
pub open spec fn ldb_first(i: nat, j: nat) -> bool
    decreases i + j,
{
    if i == j {
        false
    } else if i % 2 != j % 2 {
        i % 2 == 1
    } else {
        ldb_first(i / 2, j / 2)
    }
}

/// The canonical strict order on blade masks: grade ascending, ties broken by
/// which side owns the lowest differing bit.
pub open spec fn canon_lt(i: nat, j: nat) -> bool {
    pc(i) < pc(j) || (pc(i) == pc(j) && ldb_first(i, j))
}

/// No mask differs from itself.
pub proof fn lemma_ldb_irreflexive(i: nat)
    ensures
        !ldb_first(i, i),
{
}

/// Exactly one of the two masks owns the lowest differing bit.
pub proof fn lemma_ldb_asym(i: nat, j: nat)
    requires
        i != j,
    ensures
        ldb_first(i, j) <==> !ldb_first(j, i),
    decreases i + j,
{
    if i % 2 == j % 2 {
        assert(i / 2 != j / 2);
        lemma_ldb_asym(i / 2, j / 2);
    }
}

/// Ownership of the lowest differing bit is transitive.
pub proof fn lemma_ldb_trans(i: nat, j: nat, k: nat)
    requires
        ldb_first(i, j),
        ldb_first(j, k),
    ensures
        ldb_first(i, k),
    decreases i + j + k,
{
    if i == k {
        lemma_ldb_asym(i, j);
        assert(false);
    } else {
        if i % 2 != j % 2 {
            assert(i % 2 == 1 && j % 2 == 0);
            if j % 2 != k % 2 {
                assert(false);
            } else {
                assert(k % 2 == 0);
            }
        } else {
            if j % 2 != k % 2 {
                assert(j % 2 == 1);
                assert(i % 2 == 1 && k % 2 == 0);
            } else {
                lemma_ldb_trans(i / 2, j / 2, k / 2);
            }
        }
    }
}

/// The canonical order is total on distinct masks.
pub proof fn lemma_canon_connex(i: nat, j: nat)
    requires
        i != j,
    ensures
        canon_lt(i, j) || canon_lt(j, i),
{
    if pc(i) == pc(j) {
        lemma_ldb_asym(i, j);
    }
}

/// The canonical order is asymmetric.
pub proof fn lemma_canon_asym(i: nat, j: nat)
    ensures
        !(canon_lt(i, j) && canon_lt(j, i)),
{
    if i == j {
        lemma_ldb_irreflexive(i);
    } else {
        lemma_ldb_asym(i, j);
    }
}

/// The canonical order is transitive.
pub proof fn lemma_canon_trans(i: nat, j: nat, k: nat)
    requires
        canon_lt(i, j),
        canon_lt(j, k),
    ensures
        canon_lt(i, k),
{
    if pc(i) == pc(j) && pc(j) == pc(k) {
        lemma_ldb_trans(i, j, k);
    }
}

impl GeometricAlgebra {
    /// The canonical blade at index `k`: the default orientation is +1, but
    /// when the dual of the blade sorts strictly before it, the blade adopts
    /// the dual's scalar, fixing one global sign convention per algebra.
    pub open spec fn basis_blade(&self, k: nat) -> BasisElement {
        let c = complement(self.n(), k);
        let dscal = spec_dual_scalar(1, k, self.n(), self.squares());
        BasisElement {
            scalar: (if canon_lt(c, k) {
                dscal
            } else {
                1int
            }) as i64,
            index: k as u16,
        }
    }

    /// All canonical blades, listed by ascending index.
    pub open spec fn spec_basis(&self) -> Seq<BasisElement> {
        Seq::new(self.basis_size_spec(), |k: int| self.basis_blade(k as nat))
    }

    /// Enumerates all basis blades of the algebra in index order, applying the
    /// dual-based canonical sign convention.
    pub fn basis(&self) -> (r: Vec<BasisElement>)
        requires
            self.wf(),
        ensures
            r@ == self.spec_basis(),
            r@.len() == self.basis_size_spec(),
    {
        let size = self.basis_size();
        let mut out: Vec<BasisElement> = Vec::new();
        let mut idx: usize = 0;
        proof {
            lemma2_to64();
            if self.n() < 16 {
                vstd::arithmetic::power2::lemma_pow2_strictly_increases(self.n(), 16);
            }
        }
        while idx < size
            invariant
                self.wf(),
                size == self.basis_size_spec(),
                size <= 65536,
                idx <= size,
                out@.len() == idx,
                forall|k: int| 0 <= k < idx ==> out@[k] == self.basis_blade(k as nat),
            decreases size - idx,
        {
            let e = BasisElement::from_index(idx as u16);
            let d = e.dual(self);
            proof {
                lemma_complement(idx as nat, self.n());
                let sigma = psign(cross(idx as nat, complement(self.n(), idx as nat)));
                assert(d.scalar as int == 1 * (1 * 1 * sigma * 1));
                assert(d.scalar as int == sigma);
            }
            let canonical = if BasisElement::canonical_lt(&d, &e) {
                BasisElement { scalar: d.scalar, index: e.index }
            } else {
                e
            };
            proof {
                assert(canonical == self.basis_blade(idx as nat));
            }
            out.push(canonical);
            idx = idx + 1;
        }
        proof {
            assert(out@ =~= self.spec_basis());
        }
        out
    }

    /// All basis blades sorted into canonical order; this order defines the
    /// Cayley-table layout and every enumeration downstream.
    pub fn sorted_basis(&self) -> (r: Vec<BasisElement>)
        requires
            self.wf(),
        ensures
            r@.len() == self.basis_size_spec(),
            r@.to_multiset() == self.spec_basis().to_multiset(),
            forall|k1: int, k2: int|
                0 <= k1 < k2 < r@.len() ==> canon_lt(
                    #[trigger] r@[k1].index as nat,
                    #[trigger] r@[k2].index as nat,
                ),
            forall|k1: int, k2: int|
                0 <= k1 < k2 < r@.len() ==> (#[trigger] r@[k1]).index != (#[trigger] r@[k2]).index,
            forall|k: int|
                0 <= k < r@.len() ==> ((#[trigger] r@[k]).scalar as int == 1 || r@[k].scalar as int
                    == -1),
    {
        broadcast use vstd::seq_lib::group_to_multiset_ensures;
        broadcast use vstd::multiset::group_multiset_axioms;

        let mut src = self.basis();
        let mut out: Vec<BasisElement> = Vec::new();
        proof {
            lemma2_to64();
            if self.n() < 16 {
                vstd::arithmetic::power2::lemma_pow2_strictly_increases(self.n(), 16);
            }
            assert forall|k1: int, k2: int|
                0 <= k1 < self.spec_basis().len() && 0 <= k2 < self.spec_basis().len() && k1
                    != k2 implies (#[trigger] self.spec_basis()[k1]).index != (
            #[trigger] self.spec_basis()[k2]).index by {
                assert(self.spec_basis()[k1].index == k1 as u16);
                assert(self.spec_basis()[k2].index == k2 as u16);
                assert(k1 < 65536 && k2 < 65536);
            }
            assert(out@.to_multiset().add(src@.to_multiset()) =~= self.spec_basis().to_multiset());
        }
        while src.len() > 0
            invariant
                out@.len() + src@.len() == self.spec_basis().len(),
                out@.to_multiset().add(src@.to_multiset()) == self.spec_basis().to_multiset(),
                forall|k1: int, k2: int|
                    0 <= k1 < k2 < out@.len() ==> canon_lt(
                        #[trigger] out@[k1].index as nat,
                        #[trigger] out@[k2].index as nat,
                    ),
                forall|o: int, s: int|
                    0 <= o < out@.len() && 0 <= s < src@.len() ==> canon_lt(
                        #[trigger] out@[o].index as nat,
                        #[trigger] src@[s].index as nat,
                    ),
                forall|k1: int, k2: int|
                    0 <= k1 < src@.len() && 0 <= k2 < src@.len() && k1 != k2 ==> (
                    #[trigger] src@[k1]).index != (#[trigger] src@[k2]).index,
            decreases src@.len(),
        {
            // Select the canonically least remaining blade.
            let mut m: usize = 0;
            let mut j: usize = 1;
            while j < src.len()
                invariant
                    0 < src@.len(),
                    m < j,
                    j <= src@.len(),
                    forall|k: int|
                        0 <= k < j && k != m ==> !canon_lt(
                            (#[trigger] src@[k]).index as nat,
                            src@[m as int].index as nat,
                        ),
                decreases src@.len() - j,
            {
                if BasisElement::canonical_lt(&src[j], &src[m]) {
                    proof {
                        assert forall|k: int| 0 <= k < j + 1 && k != j implies !canon_lt(
                            (#[trigger] src@[k]).index as nat,
                            src@[j as int].index as nat,
                        ) by {
                            if k == m {
                                lemma_canon_asym(
                                    src@[j as int].index as nat,
                                    src@[m as int].index as nat,
                                );
                            } else if canon_lt(src@[k].index as nat, src@[j as int].index as nat) {
                                lemma_canon_trans(
                                    src@[k].index as nat,
                                    src@[j as int].index as nat,
                                    src@[m as int].index as nat,
                                );
                            }
                        }
                    }
                    m = j;
                }
                j = j + 1;
            }
            proof {
                assert forall|k: int| 0 <= k < src@.len() && k != m implies canon_lt(
                    src@[m as int].index as nat,
                    (#[trigger] src@[k]).index as nat,
                ) by {
                    lemma_canon_connex(src@[m as int].index as nat, src@[k].index as nat);
                }
            }
            let picked = src[m];
            let ghost old_out = out@;
            let ghost old_src = src@;
            out.push(picked);
            src.remove(m);
            proof {
                old_out.to_multiset_ensures();
                old_src.to_multiset_ensures();
                assert(old_src[m as int] == picked);
                assert(old_src.contains(picked));
                assert(out@ == old_out.push(picked));
                assert(out@.to_multiset() =~= old_out.to_multiset().insert(picked));
                assert(src@ == old_src.remove(m as int));
                assert(src@.to_multiset() =~= old_src.to_multiset().remove(picked));
                assert(out@.to_multiset().add(src@.to_multiset()) =~= old_out.to_multiset().add(
                    old_src.to_multiset(),
                ));
                assert(forall|s: int|
                    0 <= s < src@.len() ==> #[trigger] src@[s] == (if s < m {
                        old_src[s]
                    } else {
                        old_src[s + 1]
                    }));
                assert forall|k1: int, k2: int| 0 <= k1 < k2 < out@.len() implies canon_lt(
                    #[trigger] out@[k1].index as nat,
                    #[trigger] out@[k2].index as nat,
                ) by {
                    if k2 == out@.len() - 1 {
                        assert(out@[k1] == old_out[k1]);
                        assert(out@[k2] == old_src[m as int]);
                    }
                }
                assert forall|o: int, s: int|
                    0 <= o < out@.len() && 0 <= s < src@.len() implies canon_lt(
                    #[trigger] out@[o].index as nat,
                    #[trigger] src@[s].index as nat,
                ) by {
                    let s_old: int = if s < m {
                        s
                    } else {
                        s + 1
                    };
                    assert(src@[s] == old_src[s_old]);
                    if o == out@.len() - 1 {
                        assert(out@[o] == old_src[m as int]);
                        assert(s_old != m);
                        assert(canon_lt(old_src[m as int].index as nat, old_src[s_old].index as nat));
                    } else {
                        assert(out@[o] == old_out[o]);
                    }
                }
            }
        }
        proof {
            assert(src@.to_multiset() =~= Multiset::<BasisElement>::empty());
            assert(out@.to_multiset() =~= self.spec_basis().to_multiset());
            assert(out@.len() == out@.to_multiset().len());
            assert(self.spec_basis().len() == self.spec_basis().to_multiset().len());
            assert forall|k1: int, k2: int| 0 <= k1 < k2 < out@.len() implies (
            #[trigger] out@[k1]).index != (#[trigger] out@[k2]).index by {
                if out@[k1].index == out@[k2].index {
                    lemma_canon_asym(out@[k1].index as nat, out@[k2].index as nat);
                }
            }
            assert forall|k: int| 0 <= k < out@.len() implies ((#[trigger] out@[k]).scalar as int
                == 1 || out@[k].scalar as int == -1) by {
                assert(out@.contains(out@[k]));
                assert(out@.to_multiset().contains(out@[k]));
                assert(self.spec_basis().to_multiset().contains(out@[k]));
                assert(self.spec_basis().contains(out@[k]));
                let j = choose|j: int|
                    0 <= j < self.spec_basis().len() && self.spec_basis()[j] == out@[k];
                self.lemma_basis_blade_unit(j as nat);
            }
        }
        out
    }
}

/// The square-contraction factors of the two ways to associate a triple
/// product agree: each generator is contracted the same number of times.
pub proof fn lemma_sqp_assoc(sq: Seq<int>, a: nat, b: nat, c: nat)
    ensures
        sqp(sq, nband(a, b)) * sqp(sq, nband(nxor(a, b), c)) == sqp(sq, nband(b, c)) * sqp(
            sq,
            nband(a, nxor(b, c)),
        ),
    decreases a + b + c,
{
    if a == 0 && b == 0 && c == 0 {
    } else if sq.len() == 0 {
        assert(sqp(sq, nband(a, b)) == 1);
        assert(sqp(sq, nband(nxor(a, b), c)) == 1);
        assert(sqp(sq, nband(b, c)) == 1);
        assert(sqp(sq, nband(a, nxor(b, c))) == 1);
    } else {
        let sq1 = sq.skip(1);
        lemma_sqp_assoc(sq1, a / 2, b / 2, c / 2);
        let m1 = nband(a, b);
        let m2 = nband(nxor(a, b), c);
        let m3 = nband(b, c);
        let m4 = nband(a, nxor(b, c));
        assert(m1 / 2 == nband(a / 2, b / 2) && m2 / 2 == nband(nxor(a / 2, b / 2), c / 2) && m3 / 2
            == nband(b / 2, c / 2) && m4 / 2 == nband(a / 2, nxor(b / 2, c / 2)));
        let f1 = if m1 % 2 == 1 {
            sq[0]
        } else {
            1int
        };
        let f2 = if m2 % 2 == 1 {
            sq[0]
        } else {
            1int
        };
        let f3 = if m3 % 2 == 1 {
            sq[0]
        } else {
            1int
        };
        let f4 = if m4 % 2 == 1 {
            sq[0]
        } else {
            1int
        };
        assert(sqp(sq, m1) == f1 * sqp(sq1, m1 / 2));
        assert(sqp(sq, m2) == f2 * sqp(sq1, m2 / 2));
        assert(sqp(sq, m3) == f3 * sqp(sq1, m3 / 2));
        assert(sqp(sq, m4) == f4 * sqp(sq1, m4 / 2));
        assert(f1 * f2 == f3 * f4);
        let s1v = sqp(sq1, m1 / 2);
        let s2v = sqp(sq1, m2 / 2);
        let s3v = sqp(sq1, m3 / 2);
        let s4v = sqp(sq1, m4 / 2);
        assert((f1 * s1v) * (f2 * s2v) == (f1 * f2) * (s1v * s2v)) by (nonlinear_arith);
        assert((f3 * s3v) * (f4 * s4v) == (f3 * f4) * (s3v * s4v)) by (nonlinear_arith);
        assert((f1 * f2) * (s1v * s2v) == (f3 * f4) * (s3v * s4v));
    }
}

/// The geometric product of basis blades is associative: indices combine by
/// exclusive or, and the scalar — sign and contracted squares — agrees for the
/// two ways of associating a triple product.
#[verifier::rlimit(100)]
pub proof fn lemma_product_associative(
    sa: int,
    ia: nat,
    sb: int,
    ib: nat,
    sc: int,
    ic: nat,
    sq: Seq<int>,
)
    ensures
        sp_index(sp_index(ia, ib), ic) == sp_index(ia, sp_index(ib, ic)),
        sp_scalar(sp_scalar(sa, ia, sb, ib, sq), sp_index(ia, ib), sc, ic, sq) == sp_scalar(
            sa,
            ia,
            sp_scalar(sb, ib, sc, ic, sq),
            sp_index(ib, ic),
            sq,
        ),
{
    crate::bitops::lemma_nxor_assoc(ia, ib, ic);
    crate::bitops::lemma_cross_xor_left(ia, ib, ic);
    crate::bitops::lemma_cross_xor_right(ia, ib, ic);
    lemma_sqp_assoc(sq, ia, ib, ic);
    let x1 = cross(ia, ib);
    let x2 = cross(nxor(ia, ib), ic);
    let y1 = cross(ib, ic);
    let y2 = cross(ia, nxor(ib, ic));
    crate::bitops::lemma_mod_sum_cancel(x2, cross(ia, ic) + cross(ib, ic), x1);
    crate::bitops::lemma_mod_sum_cancel(y2, cross(ia, ib) + cross(ia, ic), y1);
    assert((x1 + x2) % 2 == (x1 + (cross(ia, ic) + cross(ib, ic))) % 2);
    assert((y1 + y2) % 2 == (y1 + (cross(ia, ib) + cross(ia, ic))) % 2);
    assert(x1 + (cross(ia, ic) + cross(ib, ic)) == y1 + (cross(ia, ib) + cross(ia, ic)));
    crate::bitops::lemma_psign_mul(x1, x2);
    crate::bitops::lemma_psign_mul(y1, y2);
    crate::bitops::lemma_psign_congruent(x1 + x2, y1 + y2);
    let p1 = psign(x1);
    let p2 = psign(x2);
    let p3 = psign(y1);
    let p4 = psign(y2);
    let q1 = sqp(sq, nband(ia, ib));
    let q2 = sqp(sq, nband(nxor(ia, ib), ic));
    let q3 = sqp(sq, nband(ib, ic));
    let q4 = sqp(sq, nband(ia, nxor(ib, ic)));
    assert(p1 * p2 == p3 * p4);
    assert(sp_index(ia, ib) == nxor(ia, ib));
    assert(((((sa * sb) * p1) * q1) * sc) * p2 * q2 == ((sa * sb) * sc) * (p1 * p2) * (q1 * q2))
        by (nonlinear_arith);
    let aw = (sa * sb) * sc;
    assert(sa * (((sb * sc) * p3) * q3) == ((sa * (sb * sc)) * p3) * q3) by (nonlinear_arith);
    assert(sa * (sb * sc) == (sa * sb) * sc) by (nonlinear_arith);
    assert((((aw * p3) * q3) * p4) * q4 == (aw * (p3 * p4)) * (q3 * q4)) by (nonlinear_arith);
    assert(((sa * sb) * sc) * (p1 * p2) * (q1 * q2) == ((sa * sb) * sc) * (p3 * p4) * (q3 * q4));
}

/// The square of a single-generator blade is the corresponding generator
/// square, on the scalar blade.
pub proof fn lemma_generator_square(g: nat, sq: Seq<int>)
    requires
        g < sq.len(),
    ensures
        sp_index(pow2(g), pow2(g)) == 0,
        sp_scalar(1, pow2(g), 1, pow2(g), sq) == sq[g as int],
    decreases g,
{
    crate::bitops::lemma_nxor_self(pow2(g));
    crate::bitops::lemma_cross_pow2_self(g);
    crate::bitops::lemma_nband_self(pow2(g));
    lemma_sqp_pow2(g, sq);
    assert(1int * 1int * 1int * sq[g as int] == sq[g as int]) by (nonlinear_arith);
}

/// The contraction product over a single-bit mask is the selected square.
pub proof fn lemma_sqp_pow2(g: nat, sq: Seq<int>)
    requires
        g < sq.len(),
    ensures
        sqp(sq, pow2(g)) == sq[g as int],
    decreases g,
{
    lemma_pow2_positive(g);
    if g == 0 {
        lemma2_to64();
        assert(sqp(sq, 1) == sq[0] * sqp(sq.skip(1), 0));
    } else {
        lemma_pow2_unfold(g);
        lemma_pow2_positive((g - 1) as nat);
        assert(pow2(g) % 2 == 0 && pow2(g) / 2 == pow2((g - 1) as nat));
        lemma_sqp_pow2((g - 1) as nat, sq.skip(1));
        assert(sq.skip(1)[g - 1] == sq[g as int]);
        assert(sqp(sq, pow2(g)) == 1 * sqp(sq.skip(1), pow2((g - 1) as nat)));
    }
}

/// Taking the dual twice recovers the blade up to the algebra's fixed sign
/// convention, which depends only on the blade's grade and the generator
/// count.
pub proof fn lemma_dual_involutive(s: int, i: nat, n_: nat, sq: Seq<int>)
    requires
        i < pow2(n_),
        s == 1 || s == -1,
    ensures
        complement(n_, complement(n_, i)) == i,
        spec_dual_scalar(spec_dual_scalar(s, i, n_, sq), complement(n_, i), n_, sq) == s * psign(
            pc(i) * ((n_ - pc(i)) as nat),
        ),
{
    let c = complement(n_, i);
    lemma_complement(i, n_);
    lemma_complement(c, n_);
    assert(complement(n_, c) == i);
    assert(nband(i, c) == 0 && nband(c, i) == 0);
    assert(sqp(sq, nband(i, c)) == 1 && sqp(sq, nband(c, i)) == 1);
    let g1 = psign(cross(i, c));
    let g2 = psign(cross(c, i));
    let s1 = spec_dual_scalar(s, i, n_, sq);
    assert(s1 == s * (((s * s) * g1) * 1));
    assert(s1 == s * g1) by (nonlinear_arith)
        requires
            s == 1 || s == -1,
            s1 == s * (((s * s) * g1) * 1),
    {
    }
    let s2 = spec_dual_scalar(s1, c, n_, sq);
    assert(s2 == s1 * (((s1 * s1) * g2) * 1));
    assert(s2 == s1 * g2) by (nonlinear_arith)
        requires
            s1 == s * g1,
            s == 1 || s == -1,
            g1 == 1 || g1 == -1,
            s2 == s1 * (((s1 * s1) * g2) * 1),
    {
    }
    crate::bitops::lemma_cross_disjoint(i, c);
    crate::bitops::lemma_psign_mul(cross(i, c), cross(c, i));
    assert(cross(i, c) + cross(c, i) == pc(i) * pc(c));
    assert(pc(c) == (n_ - pc(i)) as nat);
    assert(s2 == s * (g1 * g2)) by (nonlinear_arith)
        requires
            s2 == s1 * g2,
            s1 == s * g1,
    {
    }
    assert(g1 * g2 == psign(pc(i) * ((n_ - pc(i)) as nat)));
}

impl GeometricAlgebra {
    /// The canonical basis enumerates one blade per index, each carrying a
    /// unit scalar fixed by the dual-based sign convention; in particular the
    /// basis holds 2^n pairwise distinct blades.
    pub proof fn lemma_basis_units(&self)
        requires
            self.wf(),
        ensures
            self.spec_basis().len() == self.basis_size_spec(),
            forall|k: int|
                0 <= k < self.spec_basis().len() ==> ((#[trigger] self.spec_basis()[k]).index as nat
                    == k && (self.spec_basis()[k].scalar as int == 1 || self.spec_basis()[
                    k].scalar as int == -1)),
    {
        assert forall|k: int|
            0 <= k < self.spec_basis().len() implies ((#[trigger] self.spec_basis()[k]).index as nat
            == k && (self.spec_basis()[k].scalar as int == 1 || self.spec_basis()[k].scalar as int
            == -1)) by {
            self.lemma_basis_blade_unit(k as nat);
        }
    }

    /// Every canonical basis blade carries its own index and a unit scalar.
    pub proof fn lemma_basis_blade_unit(&self, k: nat)
        requires
            self.wf(),
            k < self.basis_size_spec(),
        ensures
            self.basis_blade(k).index as nat == k,
            self.basis_blade(k).scalar as int == 1 || self.basis_blade(k).scalar as int == -1,
    {
        lemma_complement(k, self.n());
        let c = complement(self.n(), k);
        assert(sqp(self.squares(), nband(k, c)) == 1);
        let dscal = spec_dual_scalar(1, k, self.n(), self.squares());
        assert(dscal == 1 * (((1int * 1int) * psign(cross(k, c))) * 1));
        lemma2_to64();
        if self.n() < 16 {
            vstd::arithmetic::power2::lemma_pow2_strictly_increases(self.n(), 16);
        }
        assert(k < 65536);
    }
}

} // verus!
