//! Product tables: the sparse structure-constant tensor of the algebra.
//!
//! `Product::new` computes the full bilinear geometric-product table between
//! two blade lists, discarding zero-scalar terms.  The seven standard
//! products are filtered from the one full table over the whole basis by
//! grade predicates drawn from a closed enumeration, the regressive product
//! by dualizing the outer product.

use vstd::prelude::*;
use crate::algebra::BasisElement;
use crate::algebra::GeometricAlgebra;
use crate::algebra::sp_scalar;
use crate::algebra::sp_index;
use crate::algebra::product_fits;
use crate::algebra::spec_dual_scalar;
use crate::algebra::complement;
use crate::algebra::fold_fits;
use crate::algebra::sqp;
use crate::ast::OperationKind;
use crate::bitops::pc;
use crate::bitops::psign;
use crate::bitops::nband;
use crate::bitops::cross;
use crate::bitops::lemma_nxor_bound;

verus! {

/// A single product term: both factors and their geometric product.
#[derive(Clone, Copy, PartialEq, Eq, Structural, Debug)]
pub struct ProductTerm {
    pub product: BasisElement,
    pub factor_a: BasisElement,
    pub factor_b: BasisElement,
}

/// The sparse product table between two blade lists.
pub struct Product {
    pub terms: Vec<ProductTerm>,
}

/// The term combining two given blades.
pub open spec fn term_of(a: BasisElement, b: BasisElement, sq: Seq<int>) -> ProductTerm {
    ProductTerm {
        product: BasisElement {
            scalar: sp_scalar(a.scalar as int, a.index as nat, b.scalar as int, b.index as nat, sq) as i64,
            index: sp_index(a.index as nat, b.index as nat) as u16,
        },
        factor_a: a,
        factor_b: b,
    }
}

/// One row of the table: a fixed left factor against every right factor,
/// zero-scalar terms discarded.
pub open spec fn row_terms(a: BasisElement, bs: Seq<BasisElement>, sq: Seq<int>) -> Seq<ProductTerm>
    decreases bs.len(),
{
    if bs.len() == 0 {
        Seq::empty()
    } else {
        (if term_of(a, bs[0], sq).product.scalar != 0 {
            seq![term_of(a, bs[0], sq)]
        } else {
            Seq::empty()
        }) + row_terms(a, bs.skip(1), sq)
    }
}

/// The full table: every row in order.
pub open spec fn all_terms(fs: Seq<BasisElement>, bs: Seq<BasisElement>, sq: Seq<int>) -> Seq<
    ProductTerm,
>
    decreases fs.len(),
{
    if fs.len() == 0 {
        Seq::empty()
    } else {
        row_terms(fs[0], bs, sq) + all_terms(fs.skip(1), bs, sq)
    }
}

/// The closed set of grade predicates that filter the full table.
#[derive(Clone, Copy, PartialEq, Eq, Structural, Debug)]
pub enum GradeProjection {
    /// Result grade is the sum of the factor grades.
    Outer,
    /// Result grade is the absolute difference of the factor grades.
    Inner,
    /// Result grade is right grade minus left grade.
    LeftContraction,
    /// Result grade is left grade minus right grade.
    RightContraction,
    /// Result grade is zero.
    Scalar,
}

/// Whether a term's grades satisfy the predicate: `r` and `s` are the factor
/// grades, `t` the product grade.
pub open spec fn projects(p: GradeProjection, r: nat, s: nat, t: nat) -> bool {
    match p {
        GradeProjection::Outer => t == r + s,
        GradeProjection::Inner => t + r == s || t + s == r,
        GradeProjection::LeftContraction => t + r == s,
        GradeProjection::RightContraction => t + s == r,
        GradeProjection::Scalar => t == 0,
    }
}

/// Whether a term satisfies the predicate.
pub open spec fn term_projects(p: GradeProjection, t: ProductTerm) -> bool {
    projects(
        p,
        pc(t.factor_a.index as nat),
        pc(t.factor_b.index as nat),
        pc(t.product.index as nat),
    )
}

/// Terms of a table that satisfy a grade predicate, in order.
pub open spec fn proj_terms(ts: Seq<ProductTerm>, p: GradeProjection) -> Seq<ProductTerm>
    decreases ts.len(),
{
    if ts.len() == 0 {
        Seq::empty()
    } else {
        (if term_projects(p, ts[0]) {
            seq![ts[0]]
        } else {
            Seq::empty()
        }) + proj_terms(ts.skip(1), p)
    }
}

/// A projected table holds exactly the terms of the source table whose grades
/// satisfy the predicate — each named product is a subset of the geometric
/// table, cut out by its grade predicate and nothing else.
pub proof fn lemma_proj_terms_characterization(ts: Seq<ProductTerm>, p: GradeProjection)
    ensures
        forall|t: ProductTerm|
            #[trigger] proj_terms(ts, p).contains(t) <==> ts.contains(t) && term_projects(p, t),
    decreases ts.len(),
{
    if ts.len() == 0 {
    } else {
        lemma_proj_terms_characterization(ts.skip(1), p);
        assert forall|t: ProductTerm| #[trigger]
            proj_terms(ts, p).contains(t) <==> ts.contains(t) && term_projects(p, t) by {
            let head: Seq<ProductTerm> = if term_projects(p, ts[0]) {
                seq![ts[0]]
            } else {
                Seq::empty()
            };
            assert(proj_terms(ts, p) == head + proj_terms(ts.skip(1), p));
            if proj_terms(ts, p).contains(t) {
                let i = choose|i: int| 0 <= i < proj_terms(ts, p).len() && proj_terms(ts, p)[i] == t;
                if i < head.len() {
                    assert(t == ts[0]);
                    assert(ts.contains(t)) by {
                        assert(ts[0] == t);
                    }
                } else {
                    assert(proj_terms(ts.skip(1), p)[i - head.len()] == t);
                    assert(proj_terms(ts.skip(1), p).contains(t));
                    assert(ts.skip(1).contains(t));
                    let j = choose|j: int| 0 <= j < ts.skip(1).len() && ts.skip(1)[j] == t;
                    assert(ts[j + 1] == t);
                }
            }
            if ts.contains(t) && term_projects(p, t) {
                let i = choose|i: int| 0 <= i < ts.len() && ts[i] == t;
                if i == 0 {
                    assert(head[0] == t);
                    assert(proj_terms(ts, p)[0] == t);
                } else {
                    assert(ts.skip(1)[i - 1] == t);
                    assert(ts.skip(1).contains(t));
                    assert(proj_terms(ts.skip(1), p).contains(t));
                    let j = choose|j: int|
                        0 <= j < proj_terms(ts.skip(1), p).len() && proj_terms(ts.skip(1), p)[j]
                            == t;
                    assert(proj_terms(ts, p)[j + head.len()] == t);
                }
            }
        }
    }
}

/// Each projected product holds only terms of its source table; since the
/// geometric product itself stands among the seven with the whole table,
/// the union of the seven, restricted to any fixed pair of operand grades,
/// reconstructs exactly the nonzero geometric-product terms for that pair.
pub proof fn lemma_projection_subset(ts: Seq<ProductTerm>, p: GradeProjection)
    ensures
        forall|t: ProductTerm| #[trigger] proj_terms(ts, p).contains(t) ==> ts.contains(t),
{
    lemma_proj_terms_characterization(ts, p);
}

/// Every pair of blades from the two lists multiplies within the scalar
/// representation.
pub open spec fn pairs_fit(fs: Seq<BasisElement>, bs: Seq<BasisElement>, alg: &GeometricAlgebra) -> bool {
    forall|i: int, j: int|
        0 <= i < fs.len() && 0 <= j < bs.len() ==> product_fits(
            (#[trigger] fs[i]).scalar as int,
            fs[i].index as nat,
            (#[trigger] bs[j]).scalar as int,
            bs[j].index as nat,
            alg.squares(),
        )
}

/// Every blade of the list is a blade of the algebra.
pub open spec fn blades_in_range(fs: Seq<BasisElement>, alg: &GeometricAlgebra) -> bool {
    forall|i: int| 0 <= i < fs.len() ==> ((#[trigger] fs[i]).index as nat) < alg.basis_size_spec()
}

impl Product {
    /// Constructs the full bilinear product between all blades of `a` and
    /// `b`, discarding zero-scalar terms.
    pub fn new(a: &[BasisElement], b: &[BasisElement], algebra: &GeometricAlgebra) -> (r: Product)
        requires
            algebra.wf(),
            blades_in_range(a@, algebra),
            blades_in_range(b@, algebra),
            pairs_fit(a@, b@, algebra),
        ensures
            r.terms@ == all_terms(a@, b@, algebra.squares()),
    {
        let ghost sq = algebra.squares();
        let mut terms: Vec<ProductTerm> = Vec::new();
        let mut i: usize = 0;
        proof {
            assert(a@.skip(0) =~= a@);
        }
        while i < a.len()
            invariant
                algebra.wf(),
                sq == algebra.squares(),
                blades_in_range(a@, algebra),
                blades_in_range(b@, algebra),
                pairs_fit(a@, b@, algebra),
                i <= a@.len(),
                terms@ + all_terms(a@.skip(i as int), b@, sq) == all_terms(a@, b@, sq),
            decreases a@.len() - i,
        {
            let fa = a[i];
            let ghost outer_old = terms@;
            let mut j: usize = 0;
            proof {
                assert(a@.skip(i as int)[0] == fa);
                assert(a@.skip(i as int).skip(1) =~= a@.skip(i as int + 1));
                assert(all_terms(a@.skip(i as int), b@, sq) == row_terms(fa, b@, sq) + all_terms(
                    a@.skip(i as int + 1),
                    b@,
                    sq,
                ));
                assert(b@.skip(0) =~= b@);
            }
            while j < b.len()
                invariant
                    algebra.wf(),
                    sq == algebra.squares(),
                    blades_in_range(a@, algebra),
                    blades_in_range(b@, algebra),
                    pairs_fit(a@, b@, algebra),
                    i < a@.len(),
                    fa == a@[i as int],
                    j <= b@.len(),
                    outer_old + row_terms(fa, b@, sq) == terms@ + row_terms(
                        fa,
                        b@.skip(j as int),
                        sq,
                    ),
                decreases b@.len() - j,
            {
                let fb = b[j];
                proof {
                    assert(b@.skip(j as int)[0] == fb);
                    assert(b@.skip(j as int).skip(1) =~= b@.skip(j as int + 1));
                    assert(row_terms(fa, b@.skip(j as int), sq) == (if term_of(
                        fa,
                        fb,
                        sq,
                    ).product.scalar != 0 {
                        seq![term_of(fa, fb, sq)]
                    } else {
                        Seq::empty()
                    }) + row_terms(fa, b@.skip(j as int + 1), sq));
                }
                let p = BasisElement::product(&fa, &fb, algebra);
                proof {
                    assert(term_of(fa, fb, sq).product == p);
                    assert(term_of(fa, fb, sq).factor_a == fa);
                    assert(term_of(fa, fb, sq).factor_b == fb);
                }
                if p.scalar != 0 {
                    let t = ProductTerm { product: p, factor_a: fa, factor_b: fb };
                    proof {
                        assert(t == term_of(fa, fb, sq));
                    }
                    let ghost before = terms@;
                    terms.push(t);
                    proof {
                        assert(before + seq![term_of(fa, fb, sq)] =~= terms@);
                        assert(outer_old + row_terms(fa, b@, sq) =~= terms@ + row_terms(
                            fa,
                            b@.skip(j as int + 1),
                            sq,
                        ));
                    }
                } else {
                    proof {
                        assert(row_terms(fa, b@.skip(j as int), sq) =~= row_terms(
                            fa,
                            b@.skip(j as int + 1),
                            sq,
                        ));
                    }
                }
                j = j + 1;
            }
            proof {
                assert(row_terms(fa, b@.skip(b@.len() as int), sq) =~= Seq::<ProductTerm>::empty());
                assert(outer_old + row_terms(fa, b@, sq) =~= terms@);
                assert(terms@ + all_terms(a@.skip(i as int + 1), b@, sq) =~= (outer_old + (
                row_terms(fa, b@, sq) + all_terms(a@.skip(i as int + 1), b@, sq))));
                assert(outer_old + all_terms(a@.skip(i as int), b@, sq) =~= (outer_old + (row_terms(
                    fa,
                    b@,
                    sq,
                ) + all_terms(a@.skip(i as int + 1), b@, sq))));
            }
            i = i + 1;
        }
        proof {
            assert(all_terms(a@.skip(a@.len() as int), b@, sq) =~= Seq::<ProductTerm>::empty());
            assert(terms@ =~= all_terms(a@, b@, sq));
        }
        Product { terms }
    }

    /// Keeps the terms whose factor and result grades satisfy the predicate.
    pub fn projected(&self, p: GradeProjection) -> (r: Product)
        ensures
            r.terms@ == proj_terms(self.terms@, p),
    {
        let mut out: Vec<ProductTerm> = Vec::new();
        let mut i: usize = 0;
        proof {
            assert(self.terms@.skip(0) =~= self.terms@);
        }
        while i < self.terms.len()
            invariant
                i <= self.terms@.len(),
                out@ + proj_terms(self.terms@.skip(i as int), p) == proj_terms(self.terms@, p),
            decreases self.terms@.len() - i,
        {
            let t = self.terms[i];
            proof {
                assert(self.terms@.skip(i as int)[0] == t);
                assert(self.terms@.skip(i as int).skip(1) =~= self.terms@.skip(i as int + 1));
            }
            let ra = t.factor_a.grade();
            let sb = t.factor_b.grade();
            let tp = t.product.grade();
            let keep = match p {
                GradeProjection::Outer => tp == ra + sb,
                GradeProjection::Inner => tp + ra == sb || tp + sb == ra,
                GradeProjection::LeftContraction => tp + ra == sb,
                GradeProjection::RightContraction => tp + sb == ra,
                GradeProjection::Scalar => tp == 0,
            };
            proof {
                assert(keep == term_projects(p, t));
            }
            if keep {
                let ghost before = out@;
                out.push(t);
                proof {
                    assert(before + seq![t] =~= out@);
                    assert(out@ + proj_terms(self.terms@.skip(i as int + 1), p) =~= before
                        + proj_terms(self.terms@.skip(i as int), p));
                }
            } else {
                proof {
                    assert(proj_terms(self.terms@.skip(i as int), p) =~= proj_terms(
                        self.terms@.skip(i as int + 1),
                        p,
                    ));
                }
            }
            i = i + 1;
        }
        proof {
            assert(proj_terms(self.terms@.skip(self.terms@.len() as int), p) =~= Seq::<
                ProductTerm,
            >::empty());
            assert(out@ =~= proj_terms(self.terms@, p));
        }
        Product { terms: out }
    }

    /// Dualizes every blade of every term.
    pub fn dual(&self, algebra: &GeometricAlgebra) -> (r: Product)
        requires
            algebra.wf(),
            forall|k: int|
                0 <= k < self.terms@.len() ==> dual_fits_term(#[trigger] self.terms@[k], algebra),
        ensures
            r.terms@.len() == self.terms@.len(),
            forall|k: int|
                0 <= k < r.terms@.len() ==> #[trigger] r.terms@[k] == dual_term(
                    self.terms@[k],
                    algebra,
                ),
    {
        let mut out: Vec<ProductTerm> = Vec::new();
        let mut i: usize = 0;
        while i < self.terms.len()
            invariant
                algebra.wf(),
                i <= self.terms@.len(),
                out@.len() == i,
                forall|k: int|
                    0 <= k < self.terms@.len() ==> dual_fits_term(
                        #[trigger] self.terms@[k],
                        algebra,
                    ),
                forall|k: int|
                    0 <= k < i ==> #[trigger] out@[k] == dual_term(self.terms@[k], algebra),
            decreases self.terms@.len() - i,
        {
            let t = self.terms[i];
            let mapped = ProductTerm {
                product: t.product.dual(algebra),
                factor_a: t.factor_a.dual(algebra),
                factor_b: t.factor_b.dual(algebra),
            };
            proof {
                assert(mapped == dual_term(self.terms@[i as int], algebra));
            }
            out.push(mapped);
            i = i + 1;
        }
        Product { terms: out }
    }

    /// The seven standard products, all derived from the one full
    /// geometric-product table over the whole basis: the geometric product
    /// as-is; the outer, inner, contraction and scalar products as grade
    /// filters of it; and the regressive product as the dual of the outer
    /// product.
    pub fn products(algebra: &GeometricAlgebra) -> (r: Vec<(OperationKind, Product)>)
        requires
            algebra.wf(),
            basis_pairs_fit(algebra),
            basis_duals_fit(algebra),
        ensures
            r@.len() == 7,
            r@[0].0 == OperationKind::GeometricProduct,
            r@[1].0 == OperationKind::RegressiveProduct,
            r@[2].0 == OperationKind::OuterProduct,
            r@[3].0 == OperationKind::InnerProduct,
            r@[4].0 == OperationKind::LeftContraction,
            r@[5].0 == OperationKind::RightContraction,
            r@[6].0 == OperationKind::ScalarProduct,
            r@[0].1.terms@ == full_table(algebra),
            r@[2].1.terms@ == proj_terms(full_table(algebra), GradeProjection::Outer),
            r@[3].1.terms@ == proj_terms(full_table(algebra), GradeProjection::Inner),
            r@[4].1.terms@ == proj_terms(full_table(algebra), GradeProjection::LeftContraction),
            r@[5].1.terms@ == proj_terms(full_table(algebra), GradeProjection::RightContraction),
            r@[6].1.terms@ == proj_terms(full_table(algebra), GradeProjection::Scalar),
            r@[1].1.terms@.len() == proj_terms(full_table(algebra), GradeProjection::Outer).len(),
            forall|k: int|
                0 <= k < r@[1].1.terms@.len() ==> #[trigger] r@[1].1.terms@[k] == dual_term(
                    proj_terms(full_table(algebra), GradeProjection::Outer)[k],
                    algebra,
                ),
    {
        let basis = algebra.basis();
        let full = Product::new(basis.as_slice(), basis.as_slice(), algebra);
        let outer = full.projected(GradeProjection::Outer);
        proof {
            lemma_proj_terms_characterization(full.terms@, GradeProjection::Outer);
            assert forall|k: int| 0 <= k < outer.terms@.len() implies dual_fits_term(
                #[trigger] outer.terms@[k],
                algebra,
            ) by {
                assert(outer.terms@.contains(outer.terms@[k]));
                assert(full.terms@.contains(outer.terms@[k]));
            }
        }
        let regressive = outer.dual(algebra);
        let mut out: Vec<(OperationKind, Product)> = Vec::new();
        out.push((OperationKind::GeometricProduct, full));
        out.push((OperationKind::RegressiveProduct, regressive));
        let full2 = Product::new(basis.as_slice(), basis.as_slice(), algebra);
        out.push((OperationKind::OuterProduct, full2.projected(GradeProjection::Outer)));
        out.push((OperationKind::InnerProduct, full2.projected(GradeProjection::Inner)));
        out.push((OperationKind::LeftContraction, full2.projected(GradeProjection::LeftContraction)));
        out.push(
            (OperationKind::RightContraction, full2.projected(GradeProjection::RightContraction)),
        );
        out.push((OperationKind::ScalarProduct, full2.projected(GradeProjection::Scalar)));
        out
    }
}

/// The full geometric-product table over the canonical basis.
pub open spec fn full_table(alg: &GeometricAlgebra) -> Seq<ProductTerm> {
    all_terms(alg.spec_basis(), alg.spec_basis(), alg.squares())
}

/// Every pair of canonical basis blades multiplies within the scalar
/// representation.
pub open spec fn basis_pairs_fit(alg: &GeometricAlgebra) -> bool {
    pairs_fit(alg.spec_basis(), alg.spec_basis(), alg)
}

/// Every term of the full table can be dualized within the scalar
/// representation.
pub open spec fn basis_duals_fit(alg: &GeometricAlgebra) -> bool {
    forall|t: ProductTerm| full_table(alg).contains(t) ==> #[trigger] dual_fits_term(t, alg)
}

/// The three blades of a term admit the dual within the representation.
pub open spec fn dual_fits_term(t: ProductTerm, alg: &GeometricAlgebra) -> bool {
    dual_fits_blade(t.product, alg) && dual_fits_blade(t.factor_a, alg) && dual_fits_blade(
        t.factor_b,
        alg,
    )
}

/// A blade admits the dual: its index is in range and its scalar's square and
/// cube stay representable.
pub open spec fn dual_fits_blade(e: BasisElement, alg: &GeometricAlgebra) -> bool {
    (e.index as nat) < alg.basis_size_spec() && (e.scalar as int) * (e.scalar as int) <= i64::MAX
        && -(i64::MAX as int) <= (e.scalar as int) * (e.scalar as int) * (e.scalar as int)
        <= i64::MAX
}

/// The blade with every part dualized.
pub open spec fn dual_blade(e: BasisElement, alg: &GeometricAlgebra) -> BasisElement {
    BasisElement {
        scalar: spec_dual_scalar(e.scalar as int, e.index as nat, alg.n(), alg.squares()) as i64,
        index: complement(alg.n(), e.index as nat) as u16,
    }
}

/// The term with every blade dualized.
pub open spec fn dual_term(t: ProductTerm, alg: &GeometricAlgebra) -> ProductTerm {
    ProductTerm {
        product: dual_blade(t.product, alg),
        factor_a: dual_blade(t.factor_a, alg),
        factor_b: dual_blade(t.factor_b, alg),
    }
}

/// Under a metric whose squares all lie in [-1, 1] — the usual degenerate,
/// Euclidean and anti-Euclidean generators — every basis pair multiplies and
/// dualizes within the representation.
pub proof fn lemma_unit_metric_fits(alg: &GeometricAlgebra)
    requires
        alg.wf(),
        forall|k: int| 0 <= k < alg.squares().len() ==> -1 <= #[trigger] alg.squares()[k] <= 1,
    ensures
        basis_pairs_fit(alg),
        basis_duals_fit(alg),
{
    assert forall|i: int, j: int|
        0 <= i < alg.spec_basis().len() && 0 <= j < alg.spec_basis().len() implies product_fits(
        (#[trigger] alg.spec_basis()[i]).scalar as int,
        alg.spec_basis()[i].index as nat,
        (#[trigger] alg.spec_basis()[j]).scalar as int,
        alg.spec_basis()[j].index as nat,
        alg.squares(),
    ) by {
        alg.lemma_basis_blade_unit(i as nat);
        alg.lemma_basis_blade_unit(j as nat);
        let sa = alg.spec_basis()[i].scalar as int;
        let sb = alg.spec_basis()[j].scalar as int;
        let ia = alg.spec_basis()[i].index as nat;
        let ib = alg.spec_basis()[j].index as nat;
        assert(sa * sb == 1 || sa * sb == -1) by (nonlinear_arith)
            requires
                sa == 1 || sa == -1,
                sb == 1 || sb == -1,
        {
        }
        assert(sa * sb * psign(cross(ia, ib)) == 1 || sa * sb * psign(cross(ia, ib)) == -1)
            by (nonlinear_arith)
            requires
                sa * sb == 1 || sa * sb == -1,
                psign(cross(ia, ib)) == 1 || psign(cross(ia, ib)) == -1,
        {
        }
        lemma_fold_fits_unit(sa * sb * psign(cross(ia, ib)), alg.squares(), nband(ia, ib));
    }
    assert forall|k: int| 0 <= k < alg.spec_basis().len() implies ((
    #[trigger] alg.spec_basis()[k]).index as nat) < alg.basis_size_spec() && -1
        <= alg.spec_basis()[k].scalar as int <= 1 by {
        alg.lemma_basis_blade_unit(k as nat);
    }
    lemma_full_table_term_bounds(alg.spec_basis(), alg.spec_basis(), alg);
}

/// Folding squares from [-1, 1] never grows the accumulator.
pub proof fn lemma_fold_fits_unit(s: int, sq: Seq<int>, m: nat)
    requires
        -1 <= s <= 1,
        forall|k: int| 0 <= k < sq.len() ==> -1 <= #[trigger] sq[k] <= 1,
    ensures
        fold_fits(s, sq, m),
        -1 <= s * sqp(sq, m) <= 1,
    decreases m,
{
    if m != 0 && sq.len() != 0 {
        let f: int = if m % 2 == 1 {
            sq[0]
        } else {
            1
        };
        assert(-1 <= s * f <= 1) by (nonlinear_arith)
            requires
                -1 <= s <= 1,
                -1 <= f <= 1,
        {
        }
        assert(forall|k: int| 0 <= k < sq.skip(1).len() ==> -1 <= #[trigger] sq.skip(1)[k] <= 1);
        lemma_fold_fits_unit(s * f, sq.skip(1), m / 2);
        assert(sqp(sq, m) == f * sqp(sq.skip(1), m / 2));
        assert(s * sqp(sq, m) == (s * f) * sqp(sq.skip(1), m / 2)) by (nonlinear_arith)
            requires
                sqp(sq, m) == f * sqp(sq.skip(1), m / 2),
        {
        }
    } else {
        assert(sqp(sq, m) == 1);
    }
}

/// Every term of a table built from in-range unit-fitting blades has blades
/// whose scalars' squares and cubes stay representable, whenever the factors
/// and products all carry scalars in [-1, 1].
proof fn lemma_full_table_term_bounds(
    fs: Seq<BasisElement>,
    bs: Seq<BasisElement>,
    alg: &GeometricAlgebra,
)
    requires
        alg.wf(),
        forall|k: int| 0 <= k < alg.squares().len() ==> -1 <= #[trigger] alg.squares()[k] <= 1,
        forall|i: int|
            0 <= i < fs.len() ==> ((#[trigger] fs[i]).index as nat) < alg.basis_size_spec() && -1
                <= fs[i].scalar as int <= 1,
        forall|j: int|
            0 <= j < bs.len() ==> ((#[trigger] bs[j]).index as nat) < alg.basis_size_spec() && -1
                <= bs[j].scalar as int <= 1,
    ensures
        forall|t: ProductTerm|
            all_terms(fs, bs, alg.squares()).contains(t) ==> #[trigger] dual_fits_term(t, alg),
    decreases fs.len(),
{
    if fs.len() == 0 {
    } else {
        lemma_full_table_term_bounds(fs.skip(1), bs, alg);
        lemma_row_term_bounds(fs[0], bs, alg);
        assert forall|t: ProductTerm|
            all_terms(fs, bs, alg.squares()).contains(t) implies #[trigger] dual_fits_term(
            t,
            alg,
        ) by {
            let whole = all_terms(fs, bs, alg.squares());
            let head = row_terms(fs[0], bs, alg.squares());
            let tail = all_terms(fs.skip(1), bs, alg.squares());
            assert(whole == head + tail);
            let i = choose|i: int| 0 <= i < whole.len() && whole[i] == t;
            if i < head.len() {
                assert(head[i] == t);
                assert(head.contains(t));
            } else {
                assert(tail[i - head.len()] == t);
                assert(tail.contains(t));
            }
        }
    }
}

/// Every term of one row has unit-bounded blades.
proof fn lemma_row_term_bounds(fa: BasisElement, bs: Seq<BasisElement>, alg: &GeometricAlgebra)
    requires
        alg.wf(),
        forall|k: int| 0 <= k < alg.squares().len() ==> -1 <= #[trigger] alg.squares()[k] <= 1,
        (fa.index as nat) < alg.basis_size_spec(),
        -1 <= fa.scalar as int <= 1,
        forall|j: int|
            0 <= j < bs.len() ==> ((#[trigger] bs[j]).index as nat) < alg.basis_size_spec() && -1
                <= bs[j].scalar as int <= 1,
    ensures
        forall|t: ProductTerm|
            row_terms(fa, bs, alg.squares()).contains(t) ==> #[trigger] dual_fits_term(t, alg),
    decreases bs.len(),
{
    if bs.len() == 0 {
    } else {
        lemma_row_term_bounds(fa, bs.skip(1), alg);
        let t0 = term_of(fa, bs[0], alg.squares());
        let sa = fa.scalar as int;
        let sb = bs[0].scalar as int;
        let ia = fa.index as nat;
        let ib = bs[0].index as nat;
        assert(-1 <= sa * sb * psign(cross(ia, ib)) <= 1) by (nonlinear_arith)
            requires
                -1 <= sa <= 1,
                -1 <= sb <= 1,
                psign(cross(ia, ib)) == 1 || psign(cross(ia, ib)) == -1,
        {
        }
        lemma_fold_fits_unit(sa * sb * psign(cross(ia, ib)), alg.squares(), nband(ia, ib));
        assert(-1 <= sp_scalar(sa, ia, sb, ib, alg.squares()) <= 1);
        lemma_nxor_bound(ia, ib, alg.n());
        vstd::arithmetic::power2::lemma2_to64();
        if alg.n() < 16 {
            vstd::arithmetic::power2::lemma_pow2_strictly_increases(alg.n(), 16);
        }
        assert(crate::bitops::nxor(ia, ib) < 65536);
        assert(dual_fits_term(t0, alg)) by {
            assert(t0.product.scalar as int == sp_scalar(sa, ia, sb, ib, alg.squares()));
            assert((t0.product.index as nat) == crate::bitops::nxor(ia, ib));
            assert(-1 <= t0.product.scalar as int <= 1);
            assert(-1 <= t0.factor_a.scalar as int <= 1);
            assert(-1 <= t0.factor_b.scalar as int <= 1);
            let xs = t0.product.scalar as int;
            let xa = t0.factor_a.scalar as int;
            let xb = t0.factor_b.scalar as int;
            assert(xs * xs <= 1 && -1 <= xs * xs * xs <= 1 && xa * xa <= 1 && -1 <= xa * xa * xa
                <= 1 && xb * xb <= 1 && -1 <= xb * xb * xb <= 1) by (nonlinear_arith)
                requires
                    -1 <= xs <= 1,
                    -1 <= xa <= 1,
                    -1 <= xb <= 1,
            {
            }
        }
        assert forall|t: ProductTerm|
            row_terms(fa, bs, alg.squares()).contains(t) implies #[trigger] dual_fits_term(
            t,
            alg,
        ) by {
            let whole = row_terms(fa, bs, alg.squares());
            let head: Seq<ProductTerm> = if t0.product.scalar != 0 {
                seq![t0]
            } else {
                Seq::empty()
            };
            let tail = row_terms(fa, bs.skip(1), alg.squares());
            assert(whole == head + tail);
            let i = choose|i: int| 0 <= i < whole.len() && whole[i] == t;
            if i < head.len() {
                assert(t == t0);
            } else {
                assert(tail[i - head.len()] == t);
                assert(tail.contains(t));
            }
        }
    }
}

} // verus!
