//! Involutions: total maps from basis blades to basis blades.
//!
//! The five standard involutions are all derived from the identity map over
//! the canonical basis: three grade-driven negations, plain negation, and the
//! dual map applied pointwise.  Grade predicates are drawn from a closed
//! enumeration rather than runtime closures.

use vstd::prelude::*;
use crate::algebra::BasisElement;
use crate::algebra::GeometricAlgebra;
use crate::algebra::spec_dual_scalar;
use crate::algebra::complement;
use crate::ast::OperationKind;
use crate::bitops::pc;
use crate::registry::MultiVectorClass;

verus! {

/// The closed set of grade predicates used to build involutions.
#[derive(Clone, Copy, PartialEq, Eq, Structural, Debug)]
pub enum GradeNegation {
    /// Negate every grade.
    All,
    /// Negate odd grades (the main automorphism).
    OddGrades,
    /// Negate grades congruent to 2 or 3 modulo 4 (reversion).
    GradeMod4In23,
    /// Negate grades g with (g + 3) mod 4 below 2 (Clifford conjugation).
    GradePlus3Mod4Below2,
}

/// Whether a grade is negated under the given predicate.
pub open spec fn negates(p: GradeNegation, grade: nat) -> bool {
    match p {
        GradeNegation::All => true,
        GradeNegation::OddGrades => grade % 2 == 1,
        GradeNegation::GradeMod4In23 => grade % 4 >= 2,
        GradeNegation::GradePlus3Mod4Below2 => (grade + 3) % 4 < 2,
    }
}

/// A blade with its scalar negated when its grade matches the predicate.
pub open spec fn negated_value(e: BasisElement, p: GradeNegation) -> BasisElement {
    BasisElement {
        scalar: (if negates(p, pc(e.index as nat)) {
            -(e.scalar as int)
        } else {
            e.scalar as int
        }) as i64,
        index: e.index,
    }
}

/// A total map basis blade to basis blade, as an explicit list of
/// (source, mapped value) pairs.
pub struct Involution {
    pub terms: Vec<(BasisElement, BasisElement)>,
}

impl Involution {
    /// Identity involution over the canonical basis: each blade maps to
    /// itself.
    pub fn identity(algebra: &GeometricAlgebra) -> (r: Involution)
        requires
            algebra.wf(),
        ensures
            r.terms@.len() == algebra.basis_size_spec(),
            forall|k: int|
                0 <= k < r.terms@.len() ==> #[trigger] r.terms@[k] == (
                algebra.spec_basis()[k],
                algebra.spec_basis()[k],
                ),
    {
        let basis = algebra.basis();
        let mut terms: Vec<(BasisElement, BasisElement)> = Vec::new();
        let mut i: usize = 0;
        while i < basis.len()
            invariant
                i <= basis@.len(),
                basis@ == algebra.spec_basis(),
                terms@.len() == i,
                forall|k: int|
                    0 <= k < i ==> #[trigger] terms@[k] == (
                    algebra.spec_basis()[k],
                    algebra.spec_basis()[k],
                    ),
            decreases basis@.len() - i,
        {
            terms.push((basis[i], basis[i]));
            i = i + 1;
        }
        Involution { terms }
    }

    /// Projection that retains only the blades of the given class: each of
    /// the class's blades maps to itself, everything else is dropped.
    pub fn projection(class: &MultiVectorClass) -> (r: Involution)
        ensures
            r.terms@.len() == class.flat_spec().len(),
            forall|k: int|
                0 <= k < r.terms@.len() ==> #[trigger] r.terms@[k] == (
                class.flat_spec()[k],
                class.flat_spec()[k],
                ),
    {
        let flat = class.flat_basis();
        let mut terms: Vec<(BasisElement, BasisElement)> = Vec::new();
        let mut i: usize = 0;
        while i < flat.len()
            invariant
                i <= flat@.len(),
                flat@ == class.flat_spec(),
                terms@.len() == i,
                forall|k: int|
                    0 <= k < i ==> #[trigger] terms@[k] == (
                    class.flat_spec()[k],
                    class.flat_spec()[k],
                    ),
            decreases flat@.len() - i,
        {
            terms.push((flat[i], flat[i]));
            i = i + 1;
        }
        Involution { terms }
    }

    /// Applies a grade-driven negation to every mapped value.
    pub fn negated(&self, p: GradeNegation) -> (r: Involution)
        requires
            forall|k: int|
                0 <= k < self.terms@.len() ==> -(i64::MAX as int) <= (
                #[trigger] self.terms@[k]).1.scalar as int,
        ensures
            r.terms@.len() == self.terms@.len(),
            forall|k: int|
                0 <= k < r.terms@.len() ==> #[trigger] r.terms@[k] == (
                self.terms@[k].0,
                negated_value(self.terms@[k].1, p),
                ),
    {
        let mut terms: Vec<(BasisElement, BasisElement)> = Vec::new();
        let mut i: usize = 0;
        while i < self.terms.len()
            invariant
                i <= self.terms@.len(),
                terms@.len() == i,
                forall|k: int|
                    0 <= k < self.terms@.len() ==> -(i64::MAX as int) <= (
                    #[trigger] self.terms@[k]).1.scalar as int,
                forall|k: int|
                    0 <= k < i ==> #[trigger] terms@[k] == (
                    self.terms@[k].0,
                    negated_value(self.terms@[k].1, p),
                    ),
            decreases self.terms@.len() - i,
        {
            let key = self.terms[i].0;
            let value = self.terms[i].1;
            let grade = value.grade();
            let negate = match p {
                GradeNegation::All => true,
                GradeNegation::OddGrades => grade % 2 == 1,
                GradeNegation::GradeMod4In23 => grade % 4 >= 2,
                GradeNegation::GradePlus3Mod4Below2 => (grade + 3) % 4 < 2,
            };
            let mapped = BasisElement {
                scalar: if negate {
                    -value.scalar
                } else {
                    value.scalar
                },
                index: value.index,
            };
            proof {
                assert(mapped == negated_value(self.terms@[i as int].1, p));
            }
            terms.push((key, mapped));
            i = i + 1;
        }
        Involution { terms }
    }

    /// Applies the dual to every mapped value.
    pub fn dual(&self, algebra: &GeometricAlgebra) -> (r: Involution)
        requires
            algebra.wf(),
            forall|k: int|
                0 <= k < self.terms@.len() ==> ((#[trigger] self.terms@[k]).1.index as nat)
                    < algebra.basis_size_spec(),
            forall|k: int|
                0 <= k < self.terms@.len() ==> ((#[trigger] self.terms@[k]).1.scalar as int) * (
                self.terms@[k].1.scalar as int) <= i64::MAX,
            forall|k: int|
                0 <= k < self.terms@.len() ==> -(i64::MAX as int) <= ((
                #[trigger] self.terms@[k]).1.scalar as int) * (self.terms@[k].1.scalar as int) * (
                self.terms@[k].1.scalar as int) <= i64::MAX,
        ensures
            r.terms@.len() == self.terms@.len(),
            forall|k: int|
                0 <= k < r.terms@.len() ==> (#[trigger] r.terms@[k]).0 == self.terms@[k].0 && (
                r.terms@[k].1.index as nat) == complement(
                    algebra.n(),
                    self.terms@[k].1.index as nat,
                ) && (r.terms@[k].1.scalar as int) == spec_dual_scalar(
                    self.terms@[k].1.scalar as int,
                    self.terms@[k].1.index as nat,
                    algebra.n(),
                    algebra.squares(),
                ),
    {
        let mut terms: Vec<(BasisElement, BasisElement)> = Vec::new();
        let mut i: usize = 0;
        while i < self.terms.len()
            invariant
                algebra.wf(),
                i <= self.terms@.len(),
                terms@.len() == i,
                forall|k: int|
                    0 <= k < self.terms@.len() ==> ((#[trigger] self.terms@[k]).1.index as nat)
                        < algebra.basis_size_spec(),
                forall|k: int|
                    0 <= k < self.terms@.len() ==> ((#[trigger] self.terms@[k]).1.scalar as int) * (
                    self.terms@[k].1.scalar as int) <= i64::MAX,
                forall|k: int|
                    0 <= k < self.terms@.len() ==> -(i64::MAX as int) <= ((
                    #[trigger] self.terms@[k]).1.scalar as int) * (self.terms@[k].1.scalar as int)
                        * (self.terms@[k].1.scalar as int) <= i64::MAX,
                forall|k: int|
                    0 <= k < i ==> (#[trigger] terms@[k]).0 == self.terms@[k].0 && (
                    terms@[k].1.index as nat) == complement(
                        algebra.n(),
                        self.terms@[k].1.index as nat,
                    ) && (terms@[k].1.scalar as int) == spec_dual_scalar(
                        self.terms@[k].1.scalar as int,
                        self.terms@[k].1.index as nat,
                        algebra.n(),
                        algebra.squares(),
                    ),
            decreases self.terms@.len() - i,
        {
            let key = self.terms[i].0;
            let value = self.terms[i].1;
            let mapped = value.dual(algebra);
            terms.push((key, mapped));
            i = i + 1;
        }
        Involution { terms }
    }

    /// The five standard involutions of the algebra, in their fixed order:
    /// negation, the main automorphism, reversion, Clifford conjugation, and
    /// the dual map.
    pub fn involutions(algebra: &GeometricAlgebra) -> (r: Vec<(OperationKind, Involution)>)
        requires
            algebra.wf(),
        ensures
            r@.len() == 5,
            r@[0].0 == OperationKind::Neg,
            r@[1].0 == OperationKind::Automorphism,
            r@[2].0 == OperationKind::Reversal,
            r@[3].0 == OperationKind::Conjugation,
            r@[4].0 == OperationKind::Dual,
            forall|j: int|
                0 <= j < 4 ==> (#[trigger] r@[j]).1.terms@.len() == algebra.basis_size_spec(),
            r@[4].1.terms@.len() == algebra.basis_size_spec(),
            forall|j: int, k: int|
                0 <= j < 4 && 0 <= k < algebra.basis_size_spec() ==> (#[trigger] r@[j].1.terms@[k])
                    == (
                algebra.spec_basis()[k],
                negated_value(
                    algebra.spec_basis()[k],
                    (if j == 0 {
                        GradeNegation::All
                    } else if j == 1 {
                        GradeNegation::OddGrades
                    } else if j == 2 {
                        GradeNegation::GradeMod4In23
                    } else {
                        GradeNegation::GradePlus3Mod4Below2
                    }),
                ),
                ),
            forall|k: int|
                0 <= k < algebra.basis_size_spec() ==> (#[trigger] r@[4].1.terms@[k]).0
                    == algebra.spec_basis()[k] && (r@[4].1.terms@[k].1.index as nat) == complement(
                    algebra.n(),
                    algebra.spec_basis()[k].index as nat,
                ) && (r@[4].1.terms@[k].1.scalar as int) == spec_dual_scalar(
                    algebra.spec_basis()[k].scalar as int,
                    algebra.spec_basis()[k].index as nat,
                    algebra.n(),
                    algebra.squares(),
                ),
    {
        let base = Involution::identity(algebra);
        proof {
            assert forall|k: int| 0 <= k < base.terms@.len() implies (
            (#[trigger] base.terms@[k]).1.scalar as int == 1 || base.terms@[k].1.scalar as int == -1)
                && ((base.terms@[k]).1.index as nat) < algebra.basis_size_spec() by {
                algebra.lemma_basis_blade_unit(k as nat);
            }
        }
        let mut out: Vec<(OperationKind, Involution)> = Vec::new();
        out.push((OperationKind::Neg, base.negated(GradeNegation::All)));
        out.push((OperationKind::Automorphism, base.negated(GradeNegation::OddGrades)));
        out.push((OperationKind::Reversal, base.negated(GradeNegation::GradeMod4In23)));
        out.push((OperationKind::Conjugation, base.negated(GradeNegation::GradePlus3Mod4Below2)));
        out.push((OperationKind::Dual, base.dual(algebra)));
        out
    }
}

/// Applying a grade-driven negation twice is the identity on every blade;
/// in particular applying reversion twice leaves every blade's sign
/// unchanged.
pub proof fn lemma_negation_involutive(e: BasisElement, p: GradeNegation)
    requires
        -(i64::MAX as int) <= e.scalar as int,
    ensures
        negated_value(negated_value(e, p), p) == e,
{
}

} // verus!
