//! The derivation engine: a demand-driven synthesis pass over registered
//! classes and class pairs that builds every operation's intermediate
//! representation, honoring data dependencies, and memoizes results for
//! reuse by later derivations.
//!
//! Every step is a pure function of its prerequisite nodes and type
//! descriptors, returning either a new node or the empty sentinel on a
//! failed precondition — a partially complete algebra is expected, never an
//! error.

use vstd::prelude::*;
use crate::algebra::BasisElement;
use crate::algebra::GeometricAlgebra;
use crate::algebra::canon_lt;
use crate::algebra::lemma_canon_connex;
use crate::algebra::lemma_canon_asym;
use crate::algebra::lemma_canon_trans;
use crate::ast::AstNode;
use crate::ast::DataType;
use crate::ast::Expression;
use crate::ast::ExpressionContent;
use crate::ast::OperationKind;
use crate::ast::Parameter;
use crate::ast::VarName;
use crate::involution::Involution;
use crate::product::Product;
use crate::product::ProductTerm;
use crate::registry::MultiVectorClass;
use crate::registry::MultiVectorClassRegistry;

verus! {

/// Whether an operation table holds the given operation.
pub open spec fn table_has(t: Seq<(OperationKind, AstNode)>, k: OperationKind) -> bool {
    exists|i: int| 0 <= i < t.len() && (#[trigger] t[i]).0 == k
}

/// Every node stored in a table is a non-empty implementation of its key.
pub open spec fn table_wf(t: Seq<(OperationKind, AstNode)>) -> bool {
    forall|i: int|
        0 <= i < t.len() ==> ((#[trigger] t[i]).1 matches AstNode::TraitImplementation {
            kind,
            ..
        } && kind == t[i].0)
}

/// Looks an operation up in a table.
pub fn find_op(t: &Vec<(OperationKind, AstNode)>, k: OperationKind) -> (r: Option<usize>)
    ensures
        match r {
            Some(i) => i < t@.len() && t@[i as int].0 == k && table_has(t@, k),
            None => !table_has(t@, k),
        },
{
    let mut i: usize = 0;
    while i < t.len()
        invariant
            i <= t@.len(),
            forall|j: int| 0 <= j < i ==> (#[trigger] t@[j]).0 != k,
        decreases t@.len() - i,
    {
        let entry = &t[i];
        if entry.0 == k {
            return Some(i);
        }
        i = i + 1;
    }
    proof {
        assert(!table_has(t@, k));
    }
    None
}

/// Position of the first blade with the given index, if any.
fn index_of_blade(flat: &Vec<BasisElement>, idx: u16) -> (r: Option<usize>)
    ensures
        match r {
            Some(i) => first_pos(flat@, idx) == Option::Some(i as int) && i < flat@.len()
                && flat@[i as int].index == idx && (forall|j: int|
                0 <= j < i ==> (#[trigger] flat@[j]).index != idx),
            None => first_pos(flat@, idx) is None && (forall|j: int|
                0 <= j < flat@.len() ==> (#[trigger] flat@[j]).index != idx),
        },
{
    proof {
        lemma_first_pos_characterize(flat@, idx);
    }
    let mut i: usize = 0;
    while i < flat.len()
        invariant
            i <= flat@.len(),
            forall|j: int| 0 <= j < i ==> (#[trigger] flat@[j]).index != idx,
        decreases flat@.len() - i,
    {
        if flat[i].index == idx {
            proof {
                lemma_first_pos_characterize(flat@, idx);
                match first_pos(flat@, idx) {
                    Some(i0) => {
                        if i0 < i as int {
                            assert(flat@[i0].index != idx);
                        } else if i0 > i as int {
                            assert(flat@[i as int].index != idx);
                        }
                    },
                    None => {
                        assert(flat@[i as int].index != idx);
                    },
                }
            }
            return Some(i);
        }
        i = i + 1;
    }
    proof {
        lemma_first_pos_characterize(flat@, idx);
        match first_pos(flat@, idx) {
            Some(i0) => {
                assert(flat@[i0].index == idx);
                assert(false);
            },
            None => {},
        }
    }
    None
}

/// The group and lane of a flat blade position within a grouped class: the
/// position decomposes as the lengths of the preceding groups plus the lane,
/// and the located slot holds exactly the flat blade.
fn locate_lane(class: &MultiVectorClass, flat_pos: usize) -> (r: (usize, usize))
    requires
        flat_pos < class.flat_spec().len(),
        class.flat_spec().len() <= usize::MAX,
    ensures
        r.0 < class.grouped_basis@.len(),
        r.1 < (class.grouped_basis@[r.0 as int])@.len(),
        flat_pos == crate::registry::flat_of(
            class.grouped_basis@.map_values(|q: Vec<BasisElement>| q@).take(r.0 as int),
        ).len() + r.1,
        class.flat_spec()[flat_pos as int] == (class.grouped_basis@[r.0 as int])@[r.1 as int],
{
    let ghost groups = class.grouped_basis@.map_values(|q: Vec<BasisElement>| q@);
    let mut g: usize = 0;
    let mut consumed: usize = 0;
    proof {
        assert(groups.take(0) =~= Seq::<Seq<BasisElement>>::empty());
    }
    while g < class.grouped_basis.len()
        invariant
            groups == class.grouped_basis@.map_values(|q: Vec<BasisElement>| q@),
            flat_pos < class.flat_spec().len(),
            class.flat_spec().len() <= usize::MAX,
            g <= groups.len(),
            consumed as nat == crate::registry::flat_of(groups.take(g as int)).len(),
            consumed <= flat_pos,
        decreases groups.len() - g,
    {
        let len = class.grouped_basis[g].len();
        proof {
            crate::registry::lemma_flat_of_split(groups, g as int);
            assert(groups.skip(g as int)[0] == groups[g as int]);
            assert(groups.skip(g as int).skip(1) =~= groups.skip(g as int + 1));
            assert(crate::registry::flat_of(groups.skip(g as int)) == groups[g as int]
                + crate::registry::flat_of(groups.skip(g as int + 1)));
            assert(groups.take(g as int + 1).take(g as int) =~= groups.take(g as int));
            assert(groups.take(g as int + 1).skip(g as int) =~= seq![groups[g as int]]);
            crate::registry::lemma_flat_of_split(groups.take(g as int + 1), g as int);
            let single = seq![groups[g as int]];
            assert(single.len() == 1 && single[0] == groups[g as int]);
            assert(single.skip(1) =~= Seq::<Seq<BasisElement>>::empty());
            assert(crate::registry::flat_of(single) == single[0] + crate::registry::flat_of(
                single.skip(1),
            ));
            assert(crate::registry::flat_of(Seq::<Seq<BasisElement>>::empty()) =~= Seq::<
                BasisElement,
            >::empty());
            assert(crate::registry::flat_of(single) =~= groups[g as int]);
            assert(crate::registry::flat_of(groups.take(g as int + 1)).len() == consumed + len);
        }
        if flat_pos - consumed < len {
            let lane = flat_pos - consumed;
            proof {
                assert(class.flat_spec() == crate::registry::flat_of(groups.take(g as int))
                    + crate::registry::flat_of(groups.skip(g as int)));
                assert(class.flat_spec()[flat_pos as int] == crate::registry::flat_of(
                    groups.skip(g as int),
                )[lane as int]);
                assert(crate::registry::flat_of(groups.skip(g as int))[lane as int]
                    == groups[g as int][lane as int]);
            }
            return (g, lane);
        }
        consumed = consumed + len;
        g = g + 1;
    }
    proof {
        assert(groups.take(groups.len() as int) =~= groups);
        assert(consumed as nat == class.flat_spec().len());
        assert(false);
    }
    (0, 0)
}

/// Multiplies blade scalars, reporting when the product leaves the
/// representation.
fn mul_scalars(a: i64, b: i64) -> (r: Option<i64>)
    ensures
        match r {
            Some(v) => v as int == (a as int) * (b as int),
            None => !crate::algebra::i64_fits((a as int) * (b as int)),
        },
{
    proof {
        assert(-0x4000_0000_0000_0000_0000_0000_0000_0000 <= (a as int) * (b as int)
            <= 0x4000_0000_0000_0000_0000_0000_0000_0000) by (nonlinear_arith)
            requires
                -0x8000_0000_0000_0000 <= a as int <= 0x7fff_ffff_ffff_ffff,
                -0x8000_0000_0000_0000 <= b as int <= 0x7fff_ffff_ffff_ffff,
        {
        }
    }
    let wide: i128 = (a as i128) * (b as i128);
    if wide > i64::MAX as i128 || wide < i64::MIN as i128 {
        None
    } else {
        Some(wide as i64)
    }
}



/// The first position holding a blade with the given index.
pub open spec fn first_pos(flat: Seq<BasisElement>, idx: u16) -> Option<int>
    decreases flat.len(),
{
    if flat.len() == 0 {
        Option::None
    } else if flat[0].index == idx {
        Option::Some(0int)
    } else {
        match first_pos(flat.skip(1), idx) {
            Option::Some(p) => Option::Some(p + 1),
            Option::None => Option::None,
        }
    }
}

/// `first_pos` names the first match and rules everything before it out.
pub proof fn lemma_first_pos_characterize(flat: Seq<BasisElement>, idx: u16)
    ensures
        match first_pos(flat, idx) {
            Some(i) => 0 <= i < flat.len() && flat[i].index == idx && (forall|j: int|
                0 <= j < i ==> (#[trigger] flat[j]).index != idx),
            None => forall|j: int| 0 <= j < flat.len() ==> (#[trigger] flat[j]).index != idx,
        },
    decreases flat.len(),
{
    if flat.len() == 0 {
    } else if flat[0].index == idx {
    } else {
        lemma_first_pos_characterize(flat.skip(1), idx);
        match first_pos(flat, idx) {
            Some(i) => {
                assert(flat.skip(1)[i - 1].index == idx);
                assert forall|j: int| 0 <= j < i implies (#[trigger] flat[j]).index != idx by {
                    if j > 0 {
                        assert(flat.skip(1)[j - 1].index != idx);
                    }
                }
            },
            None => {
                assert forall|j: int| 0 <= j < flat.len() implies (#[trigger] flat[j]).index
                    != idx by {
                    if j > 0 {
                        assert(flat.skip(1)[j - 1].index != idx);
                    }
                }
            },
        }
    }
}

/// The stepwise coefficient of a term against the first matching class
/// blades, with the exact multiplication order of the builder.
pub open spec fn chain_value(t: ProductTerm, fa: BasisElement, fb: BasisElement) -> int {
    (((t.product.scalar as int) * (t.factor_a.scalar as int)) * (fa.scalar as int)) * (
    t.factor_b.scalar as int) * (fb.scalar as int)
}

/// Every intermediate of the coefficient chain stays representable.
pub open spec fn chain_fits(t: ProductTerm, fa: BasisElement, fb: BasisElement) -> bool {
    crate::algebra::i64_fits((t.product.scalar as int) * (t.factor_a.scalar as int))
        && crate::algebra::i64_fits(
        ((t.product.scalar as int) * (t.factor_a.scalar as int)) * (fa.scalar as int),
    ) && crate::algebra::i64_fits(
        (((t.product.scalar as int) * (t.factor_a.scalar as int)) * (fa.scalar as int)) * (
        t.factor_b.scalar as int),
    ) && crate::algebra::i64_fits(chain_value(t, fa, fb))
}

/// Whether both factors of a term are blades of the two classes.
pub open spec fn term_applies(t: ProductTerm, fa: Seq<BasisElement>, fb: Seq<BasisElement>) -> bool {
    first_pos(fa, t.factor_a.index) is Some && first_pos(fb, t.factor_b.index) is Some
}

/// The surviving contributions of a table between two classes: product
/// index, exact coefficient, and the two source positions, in table order.
pub open spec fn contribs_spec(
    table: Seq<ProductTerm>,
    fa: Seq<BasisElement>,
    fb: Seq<BasisElement>,
) -> Seq<(u16, int, int, int)>
    decreases table.len(),
{
    if table.len() == 0 {
        Seq::empty()
    } else {
        (if term_applies(table[0], fa, fb) {
            seq![
                (
                    table[0].product.index,
                    chain_value(
                        table[0],
                        fa[first_pos(fa, table[0].factor_a.index)->Some_0],
                        fb[first_pos(fb, table[0].factor_b.index)->Some_0],
                    ),
                    first_pos(fa, table[0].factor_a.index)->Some_0,
                    first_pos(fb, table[0].factor_b.index)->Some_0,
                ),
            ]
        } else {
            Seq::empty()
        }) + contribs_spec(table.skip(1), fa, fb)
    }
}

/// The surviving product indices, in table order.
pub open spec fn surv_indices(
    table: Seq<ProductTerm>,
    fa: Seq<BasisElement>,
    fb: Seq<BasisElement>,
) -> Seq<u16> {
    contribs_spec(table, fa, fb).map_values(|e: (u16, int, int, int)| e.0)
}

/// Some surviving term's coefficient chain leaves the representation.
pub open spec fn product_map_overflow(
    table: Seq<ProductTerm>,
    fa: Seq<BasisElement>,
    fb: Seq<BasisElement>,
) -> bool {
    exists|k: int|
        0 <= k < table.len() && term_applies(#[trigger] table[k], fa, fb) && !chain_fits(
            table[k],
            fa[first_pos(fa, table[k].factor_a.index)->Some_0 as int],
            fb[first_pos(fb, table[k].factor_b.index)->Some_0 as int],
        )
}

/// Some result-slot coefficient leaves the representation when scaled to the
/// declared result blade.
pub open spec fn product_assembly_overflow(
    rc: MultiVectorClass,
    contribs: Seq<(u16, int, int, int)>,
) -> bool {
    exists|g: int, l: int, q: int|
        0 <= g < rc.grouped_basis@.len() && 0 <= l < rc.grouped_basis@[g]@.len() && 0 <= q
            < contribs.len() && (#[trigger] contribs[q]).0 == (#[trigger] (
        rc.grouped_basis@[g])@[l]).index && !crate::algebra::i64_fits(
            contribs[q].1 * (rc.grouped_basis@[g]@[l].scalar as int),
        )
}

/// No registered class holds exactly the surviving indices, canonically
/// sorted.
pub open spec fn product_lookup_fails(
    table: Seq<ProductTerm>,
    fa: Seq<BasisElement>,
    fb: Seq<BasisElement>,
    registry: &MultiVectorClassRegistry,
) -> bool {
    forall|sigr: Seq<u16>|
        is_canon_sig(sigr, surv_indices(table, fa, fb)) ==> #[trigger] registry.lookup_spec(sigr)
            is None
}



/// The last involution term whose key carries the given index — the builder
/// keeps the latest match while scanning forward.
pub open spec fn inv_find(terms: Seq<(BasisElement, BasisElement)>, idx: u16) -> Option<
    (BasisElement, BasisElement),
>
    decreases terms.len(),
{
    if terms.len() == 0 {
        Option::None
    } else if terms.last().0.index == idx {
        Option::Some(terms.last())
    } else {
        inv_find(terms.drop_last(), idx)
    }
}

/// `inv_find` returns the last match, and returns nothing iff no key
/// matches.
pub proof fn lemma_inv_find_characterize(terms: Seq<(BasisElement, BasisElement)>, idx: u16)
    ensures
        inv_find(terms, idx) is None <==> (forall|j: int|
            0 <= j < terms.len() ==> (#[trigger] terms[j]).0.index != idx),
        forall|jj: int|
            0 <= jj < terms.len() && (#[trigger] terms[jj]).0.index == idx && (forall|m: int|
                jj < m < terms.len() ==> (#[trigger] terms[m]).0.index != idx) ==> inv_find(
                terms,
                idx,
            ) == Option::Some(terms[jj]),
    decreases terms.len(),
{
    if terms.len() == 0 {
    } else if terms.last().0.index == idx {
        assert forall|jj: int|
            0 <= jj < terms.len() && (#[trigger] terms[jj]).0.index == idx && (forall|m: int|
                jj < m < terms.len() ==> (#[trigger] terms[m]).0.index != idx) implies inv_find(
            terms,
            idx,
        ) == Option::Some(terms[jj]) by {
            if jj < terms.len() - 1 {
                assert(terms[terms.len() - 1].0.index != idx);
                assert(false);
            }
        }
        assert(terms[terms.len() - 1].0.index == idx);
    } else {
        lemma_inv_find_characterize(terms.drop_last(), idx);
        assert(forall|j: int|
            0 <= j < terms.len() - 1 ==> (#[trigger] terms[j]) == terms.drop_last()[j]);
        assert forall|jj: int|
            0 <= jj < terms.len() && (#[trigger] terms[jj]).0.index == idx && (forall|m: int|
                jj < m < terms.len() ==> (#[trigger] terms[m]).0.index != idx) implies inv_find(
            terms,
            idx,
        ) == Option::Some(terms[jj]) by {
            assert(jj < terms.len() - 1);
            assert(terms.drop_last()[jj].0.index == idx);
            assert(forall|m: int|
                jj < m < terms.drop_last().len() ==> (#[trigger] terms.drop_last()[m]).0.index
                    != idx);
        }
        if inv_find(terms, idx) is None {
            assert forall|j: int| 0 <= j < terms.len() implies (#[trigger] terms[j]).0.index
                != idx by {
                if j < terms.len() - 1 {
                    assert(terms.drop_last()[j].0.index != idx);
                }
            }
        }
    }
}

/// The image of a declared blade under an involution term, by linear
/// extension: the blade is a signed multiple of the term's key.
pub open spec fn inv_image(b: BasisElement, t: (BasisElement, BasisElement)) -> BasisElement {
    BasisElement {
        scalar: (((b.scalar as int) * (t.0.scalar as int)) * (t.1.scalar as int)) as i64,
        index: t.1.index,
    }
}

/// The image coefficient stays representable at both steps.
pub open spec fn inv_image_fits(b: BasisElement, t: (BasisElement, BasisElement)) -> bool {
    crate::algebra::i64_fits((b.scalar as int) * (t.0.scalar as int))
        && crate::algebra::i64_fits(((b.scalar as int) * (t.0.scalar as int)) * (t.1.scalar as int))
}

/// The mapped blades of a class under an involution, with their flat source
/// positions; blades without an image are dropped.
pub open spec fn mapped_pairs(
    flat: Seq<BasisElement>,
    terms: Seq<(BasisElement, BasisElement)>,
    base: int,
) -> Seq<(int, BasisElement)>
    decreases flat.len(),
{
    if flat.len() == 0 {
        Seq::empty()
    } else {
        (match inv_find(terms, flat[0].index) {
            Option::Some(t) => seq![(base, inv_image(flat[0], t))],
            Option::None => Seq::empty(),
        }) + mapped_pairs(flat.skip(1), terms, base + 1)
    }
}

/// The mapped indices, in source order.
pub open spec fn mapped_indices(
    flat: Seq<BasisElement>,
    terms: Seq<(BasisElement, BasisElement)>,
) -> Seq<u16> {
    mapped_pairs(flat, terms, 0).map_values(|e: (int, BasisElement)| e.1.index)
}

/// Some blade of the class has no image under the involution.
pub open spec fn inv_unmatched(
    flat: Seq<BasisElement>,
    terms: Seq<(BasisElement, BasisElement)>,
) -> bool {
    exists|i: int| 0 <= i < flat.len() && inv_find(terms, (#[trigger] flat[i]).index) is None
}

/// Some image coefficient leaves the representation.
pub open spec fn inv_map_overflow(
    flat: Seq<BasisElement>,
    terms: Seq<(BasisElement, BasisElement)>,
) -> bool {
    exists|i: int|
        0 <= i < flat.len() && (inv_find(terms, (#[trigger] flat[i]).index) matches Some(t)
            && !inv_image_fits(flat[i], t))
}

/// No registered class holds exactly the mapped indices, canonically sorted.
pub open spec fn inv_lookup_fails(
    flat: Seq<BasisElement>,
    terms: Seq<(BasisElement, BasisElement)>,
    registry: &MultiVectorClassRegistry,
) -> bool {
    forall|sigr: Seq<u16>|
        is_canon_sig(sigr, mapped_indices(flat, terms)) ==> #[trigger] registry.lookup_spec(sigr)
            is None
}

/// The last mapped entry carrying the given index — the builder keeps the
/// latest source while scanning forward.
pub open spec fn last_with(mp: Seq<(int, BasisElement)>, idx: u16) -> Option<(int, BasisElement)>
    decreases mp.len(),
{
    if mp.len() == 0 {
        Option::None
    } else if mp.last().1.index == idx {
        Option::Some(mp.last())
    } else {
        last_with(mp.drop_last(), idx)
    }
}

/// `last_with` returns the last match, and returns nothing iff no entry
/// matches.
pub proof fn lemma_last_with_characterize(mp: Seq<(int, BasisElement)>, idx: u16)
    ensures
        last_with(mp, idx) is None <==> (forall|j: int|
            0 <= j < mp.len() ==> (#[trigger] mp[j]).1.index != idx),
        forall|jj: int|
            0 <= jj < mp.len() && (#[trigger] mp[jj]).1.index == idx && (forall|m: int|
                jj < m < mp.len() ==> (#[trigger] mp[m]).1.index != idx) ==> last_with(mp, idx)
                == Option::Some(mp[jj]),
    decreases mp.len(),
{
    if mp.len() == 0 {
    } else if mp.last().1.index == idx {
        assert forall|jj: int|
            0 <= jj < mp.len() && (#[trigger] mp[jj]).1.index == idx && (forall|m: int|
                jj < m < mp.len() ==> (#[trigger] mp[m]).1.index != idx) implies last_with(mp, idx)
            == Option::Some(mp[jj]) by {
            if jj < mp.len() - 1 {
                assert(mp[mp.len() - 1].1.index != idx);
                assert(false);
            }
        }
        assert(mp[mp.len() - 1].1.index == idx);
    } else {
        lemma_last_with_characterize(mp.drop_last(), idx);
        assert(forall|j: int| 0 <= j < mp.len() - 1 ==> (#[trigger] mp[j]) == mp.drop_last()[j]);
        assert forall|jj: int|
            0 <= jj < mp.len() && (#[trigger] mp[jj]).1.index == idx && (forall|m: int|
                jj < m < mp.len() ==> (#[trigger] mp[m]).1.index != idx) implies last_with(mp, idx)
            == Option::Some(mp[jj]) by {
            assert(jj < mp.len() - 1);
            assert(mp.drop_last()[jj].1.index == idx);
            assert(forall|m: int|
                jj < m < mp.drop_last().len() ==> (#[trigger] mp.drop_last()[m]).1.index != idx);
        }
        if last_with(mp, idx) is None {
            assert forall|j: int| 0 <= j < mp.len() implies (#[trigger] mp[j]).1.index != idx by {
                if j < mp.len() - 1 {
                    assert(mp.drop_last()[j].1.index != idx);
                }
            }
        }
    }
}


/// A successful `last_with` names a member of the sequence.
pub proof fn lemma_last_with_member(mp: Seq<(int, BasisElement)>, idx: u16)
    requires
        last_with(mp, idx) is Some,
    ensures
        exists|w: int| 0 <= w < mp.len() && #[trigger] mp[w] == last_with(mp, idx)->Some_0,
    decreases mp.len(),
{
    if mp.len() == 0 {
    } else if mp.last().1.index == idx {
        assert(mp[mp.len() - 1] == last_with(mp, idx)->Some_0);
    } else {
        lemma_last_with_member(mp.drop_last(), idx);
        let w = choose|w: int|
            0 <= w < mp.drop_last().len() && #[trigger] mp.drop_last()[w] == last_with(
                mp.drop_last(),
                idx,
            )->Some_0;
        assert(mp[w] == last_with(mp, idx)->Some_0);
    }
}

/// Some result slot's sign coefficient leaves the representation when the
/// last mapped source is scaled to the declared result blade.
pub open spec fn inv_assembly_overflow(rc: MultiVectorClass, mp: Seq<(int, BasisElement)>) -> bool {
    exists|g: int, l: int|
        0 <= g < rc.grouped_basis@.len() && 0 <= l < rc.grouped_basis@[g]@.len() && (last_with(
            mp,
            (#[trigger] (rc.grouped_basis@[g])@[l]).index,
        ) matches Some(m) && !crate::algebra::i64_fits(
            (m.1.scalar as int) * (rc.grouped_basis@[g]@[l].scalar as int),
        ))
}

/// The executable mapped rows, viewed mathematically.
pub open spec fn lift_mapped(mp: Seq<(usize, BasisElement)>) -> Seq<(int, BasisElement)> {
    mp.map_values(|e: (usize, BasisElement)| (e.0 as int, e.1))
}

/// Shape of an involution body: one return of the result class constructor
/// with, per result group, a gather of source lanes, scaled by a literal
/// coefficient vector when any coefficient differs from one.
pub open spec fn involution_group_ok(
    arg: (DataType, Expression),
    a_ix: usize,
    a_name: VarName,
    len: nat,
) -> bool {
    (arg.0 matches DataType::SimdVector(sz) && sz == len) && arg.1.size == len && (
    match arg.1.content {
        ExpressionContent::Gather(src, pairs) => var_ok(*src, DataType::MultiVector(a_ix), a_name)
            && pairs@.len() == len,
        ExpressionContent::Multiply(gth, cst) => gth.size == len && (gth.content
            matches ExpressionContent::Gather(src, pairs) && var_ok(
            *src,
            DataType::MultiVector(a_ix),
            a_name,
        ) && pairs@.len() == len) && cst.size == len && (cst.content
            matches ExpressionContent::Constant(dt, lanes) && dt == DataType::SimdVector(
            len as usize,
        ) && lanes@.len() == len),
        _ => false,
    })
}

/// Shape of an involution body as a whole.
pub open spec fn involution_body_shape(
    body: Seq<AstNode>,
    rx: usize,
    rc: MultiVectorClass,
    a_ix: usize,
    a_name: VarName,
) -> bool {
    body.len() == 1 && (body[0] matches AstNode::ReturnStatement { expression }
        && expression.size == 1 && (expression.content
        matches ExpressionContent::InvokeClassMethod(cix, ck, args) && cix == rx && ck
        == OperationKind::Constructor && args@.len() == rc.grouped_basis@.len() && (forall|g: int|
        0 <= g < args@.len() ==> involution_group_ok(
            #[trigger] args@[g],
            a_ix,
            a_name,
            rc.grouped_basis@[g]@.len(),
        ))))
}

/// The executable contribution rows, viewed mathematically.
pub open spec fn lift_contribs(c: Seq<(u16, i64, usize, usize)>) -> Seq<(u16, int, int, int)> {
    c.map_values(|e: (u16, i64, usize, usize)| (e.0, e.1 as int, e.2 as int, e.3 as int))
}

/// Shape of a product body: one return of the result class constructor with
/// one single-lane argument per declared result slot.
pub open spec fn product_body_shape(body: Seq<AstNode>, rx: usize, rc: MultiVectorClass) -> bool {
    body.len() == 1 && (body[0] matches AstNode::ReturnStatement { expression }
        && expression.size == 1 && (expression.content
        matches ExpressionContent::InvokeClassMethod(cix, ck, args) && cix == rx && ck
        == OperationKind::Constructor && args@.len() == rc.flat_spec().len() && (forall|q: int|
        0 <= q < args@.len() ==> ((#[trigger] args@[q]).0 == DataType::SimdVector(1) && args@[
        q].1.size == 1))))
}

/// `r` lists exactly the members of `xs`, strictly ascending in the
/// canonical order.
pub open spec fn is_canon_sig(r: Seq<u16>, xs: Seq<u16>) -> bool {
    (forall|x: u16| r.contains(x) <==> xs.contains(x)) && (forall|k1: int, k2: int|
        0 <= k1 < k2 < r.len() ==> canon_lt(#[trigger] r[k1] as nat, #[trigger] r[k2] as nat))
}

/// The canonically sorted signature of a member set is unique.
pub proof fn lemma_canon_sig_unique(r1: Seq<u16>, r2: Seq<u16>, xs: Seq<u16>)
    requires
        is_canon_sig(r1, xs),
        is_canon_sig(r2, xs),
    ensures
        r1 == r2,
    decreases r1.len(),
{
    if r1.len() == 0 {
        if r2.len() > 0 {
            assert(r2.contains(r2[0]));
            assert(xs.contains(r2[0]));
            assert(r1.contains(r2[0]));
            assert(false);
        }
        assert(r1 =~= r2);
    } else {
        if r2.len() == 0 {
            assert(r1.contains(r1[0]));
            assert(xs.contains(r1[0]));
            assert(r2.contains(r1[0]));
            assert(false);
        }
        // Both heads are the canonical minimum of the member set.
        assert(r1.contains(r1[0]));
        assert(xs.contains(r1[0]));
        assert(r2.contains(r1[0]));
        let k = choose|k: int| 0 <= k < r2.len() && r2[k] == r1[0];
        assert(r2.contains(r2[0]));
        assert(xs.contains(r2[0]));
        assert(r1.contains(r2[0]));
        let m = choose|m: int| 0 <= m < r1.len() && r1[m] == r2[0];
        if r1[0] != r2[0] {
            assert(k > 0);
            assert(m > 0);
            assert(canon_lt(r1[0] as nat, r1[m] as nat));
            assert(canon_lt(r2[0] as nat, r2[k] as nat));
            lemma_canon_asym(r1[0] as nat, r2[0] as nat);
            assert(false);
        }
        // The tails list the members without the shared head.
        assert forall|x: u16| r1.skip(1).contains(x) <==> r2.skip(1).contains(x) by {
            if r1.skip(1).contains(x) {
                let i = choose|i: int| 0 <= i < r1.skip(1).len() && r1.skip(1)[i] == x;
                assert(r1[i + 1] == x);
                assert(x != r1[0]) by {
                    if x == r1[0] {
                        lemma_canon_asym(r1[0] as nat, r1[i + 1] as nat);
                    }
                }
                assert(r1.contains(x));
                assert(r2.contains(x));
                let j = choose|j: int| 0 <= j < r2.len() && r2[j] == x;
                assert(j > 0);
                assert(r2.skip(1)[j - 1] == x);
            }
            if r2.skip(1).contains(x) {
                let i = choose|i: int| 0 <= i < r2.skip(1).len() && r2.skip(1)[i] == x;
                assert(r2[i + 1] == x);
                assert(x != r2[0]) by {
                    if x == r2[0] {
                        lemma_canon_asym(r2[0] as nat, r2[i + 1] as nat);
                    }
                }
                assert(r2.contains(x));
                assert(r1.contains(x));
                let j = choose|j: int| 0 <= j < r1.len() && r1[j] == x;
                assert(j > 0);
                assert(r1.skip(1)[j - 1] == x);
            }
        }
        assert(is_canon_sig(r1.skip(1), r1.skip(1))) by {
            assert forall|k1: int, k2: int| 0 <= k1 < k2 < r1.skip(1).len() implies canon_lt(
                #[trigger] r1.skip(1)[k1] as nat,
                #[trigger] r1.skip(1)[k2] as nat,
            ) by {
                assert(r1.skip(1)[k1] == r1[k1 + 1]);
                assert(r1.skip(1)[k2] == r1[k2 + 1]);
            }
        }
        assert(is_canon_sig(r2.skip(1), r1.skip(1))) by {
            assert forall|k1: int, k2: int| 0 <= k1 < k2 < r2.skip(1).len() implies canon_lt(
                #[trigger] r2.skip(1)[k1] as nat,
                #[trigger] r2.skip(1)[k2] as nat,
            ) by {
                assert(r2.skip(1)[k1] == r2[k1 + 1]);
                assert(r2.skip(1)[k2] == r2[k2 + 1]);
            }
        }
        lemma_canon_sig_unique(r1.skip(1), r2.skip(1), r1.skip(1));
        assert(r1.skip(1) == r2.skip(1));
        assert(r1.len() == r2.len());
        assert forall|i: int| 0 <= i < r1.len() implies r1[i] == r2[i] by {
            if i > 0 {
                assert(r1.skip(1)[i - 1] == r1[i]);
                assert(r2.skip(1)[i - 1] == r2[i]);
            }
        }
        assert(r1 =~= r2);
    }
}

/// The distinct blade indices of a list, in canonical order.
fn sorted_unique_indices(xs: &Vec<u16>) -> (r: Vec<u16>)
    ensures
        forall|x: u16| r@.contains(x) <==> xs@.contains(x),
        forall|k1: int, k2: int|
            0 <= k1 < k2 < r@.len() ==> canon_lt(
                #[trigger] r@[k1] as nat,
                #[trigger] r@[k2] as nat,
            ),
        is_canon_sig(r@, xs@),
{
    // Deduplicate.
    let mut uniq: Vec<u16> = Vec::new();
    let mut i: usize = 0;
    while i < xs.len()
        invariant
            i <= xs@.len(),
            forall|x: u16| uniq@.contains(x) <==> xs@.take(i as int).contains(x),
            forall|k1: int, k2: int|
                0 <= k1 < k2 < uniq@.len() ==> #[trigger] uniq@[k1] != #[trigger] uniq@[k2],
        decreases xs@.len() - i,
    {
        let x = xs[i];
        let mut seen = false;
        let mut j: usize = 0;
        while j < uniq.len()
            invariant
                j <= uniq@.len(),
                seen <==> exists|k: int| 0 <= k < j && uniq@[k] == x,
            decreases uniq@.len() - j,
        {
            if uniq[j] == x {
                seen = true;
                proof {
                    assert(uniq@[j as int] == x);
                }
            }
            j = j + 1;
        }
        let ghost old_uniq = uniq@;
        if !seen {
            uniq.push(x);
        }
        proof {
            assert(xs@.take(i as int + 1) =~= xs@.take(i as int).push(xs@[i as int]));
            assert forall|y: u16| uniq@.contains(y) <==> xs@.take(i as int + 1).contains(y) by {
                if seen {
                    assert(uniq@ == old_uniq);
                    if y == x {
                        assert(old_uniq.contains(x));
                    }
                    if xs@.take(i as int + 1).contains(y) {
                        let k = choose|k: int|
                            0 <= k < xs@.take(i as int + 1).len() && #[trigger] xs@.take(
                                i as int + 1,
                            )[k] == y;
                        if k < i {
                            assert(xs@.take(i as int)[k] == y);
                        } else {
                            assert(y == x);
                        }
                    }
                    if old_uniq.contains(y) {
                        let k = choose|k: int| 0 <= k < old_uniq.len() && old_uniq[k] == y;
                        assert(xs@.take(i as int).contains(y));
                        let m = choose|m: int|
                            0 <= m < xs@.take(i as int).len() && xs@.take(i as int)[m] == y;
                        assert(xs@.take(i as int + 1)[m] == y);
                    }
                } else {
                    assert(uniq@ == old_uniq.push(x));
                    if uniq@.contains(y) {
                        let k = choose|k: int| 0 <= k < uniq@.len() && uniq@[k] == y;
                        if k < old_uniq.len() {
                            assert(old_uniq[k] == y);
                            assert(old_uniq.contains(y));
                            assert(xs@.take(i as int).contains(y));
                            let m = choose|m: int|
                                0 <= m < xs@.take(i as int).len() && xs@.take(i as int)[m] == y;
                            assert(xs@.take(i as int + 1)[m] == y);
                        } else {
                            assert(y == x);
                            assert(xs@.take(i as int + 1)[i as int] == x);
                        }
                    }
                    if xs@.take(i as int + 1).contains(y) {
                        let k = choose|k: int|
                            0 <= k < xs@.take(i as int + 1).len() && #[trigger] xs@.take(
                                i as int + 1,
                            )[k] == y;
                        if k < i {
                            assert(xs@.take(i as int)[k] == y);
                            assert(old_uniq.contains(y));
                            let m = choose|m: int| 0 <= m < old_uniq.len() && old_uniq[m] == y;
                            assert(uniq@[m] == y);
                        } else {
                            assert(y == x);
                            assert(uniq@[old_uniq.len() as int] == x);
                        }
                    }
                }
            }
            if !seen {
                assert forall|k1: int, k2: int|
                    0 <= k1 < k2 < uniq@.len() implies #[trigger] uniq@[k1]
                    != #[trigger] uniq@[k2] by {
                    if k2 == uniq@.len() - 1 {
                        assert(uniq@[k1] == old_uniq[k1]);
                        assert(old_uniq.contains(old_uniq[k1]));
                        if old_uniq[k1] == x {
                            assert(false);
                        }
                    }
                }
            }
        }
        i = i + 1;
    }
    proof {
        assert(xs@.take(xs@.len() as int) =~= xs@);
    }
    // Selection sort by canonical order.
    let mut src = uniq;
    let mut out: Vec<u16> = Vec::new();
    while src.len() > 0
        invariant
            forall|x: u16| (out@.contains(x) || src@.contains(x)) <==> xs@.contains(x),
            forall|k1: int, k2: int|
                0 <= k1 < k2 < out@.len() ==> canon_lt(
                    #[trigger] out@[k1] as nat,
                    #[trigger] out@[k2] as nat,
                ),
            forall|o: int, s: int|
                0 <= o < out@.len() && 0 <= s < src@.len() ==> canon_lt(
                    (#[trigger] out@[o]) as nat,
                    (#[trigger] src@[s]) as nat,
                ),
            forall|k1: int, k2: int|
                0 <= k1 < k2 < src@.len() ==> #[trigger] src@[k1] != #[trigger] src@[k2],
        decreases src@.len(),
    {
        let mut m: usize = 0;
        let mut j: usize = 1;
        while j < src.len()
            invariant
                0 < src@.len(),
                m < j,
                j <= src@.len(),
                forall|k: int|
                    0 <= k < j && k != m ==> !canon_lt(
                        (#[trigger] src@[k]) as nat,
                        src@[m as int] as nat,
                    ),
            decreases src@.len() - j,
        {
            let a = BasisElement { scalar: 1, index: src[j] };
            let b = BasisElement { scalar: 1, index: src[m] };
            if BasisElement::canonical_lt(&a, &b) {
                proof {
                    assert forall|k: int| 0 <= k < j + 1 && k != j implies !canon_lt(
                        (#[trigger] src@[k]) as nat,
                        src@[j as int] as nat,
                    ) by {
                        if k == m {
                            lemma_canon_asym(src@[j as int] as nat, src@[m as int] as nat);
                        } else if canon_lt(src@[k] as nat, src@[j as int] as nat) {
                            lemma_canon_trans(
                                src@[k] as nat,
                                src@[j as int] as nat,
                                src@[m as int] as nat,
                            );
                        }
                    }
                }
                m = j;
            }
            j = j + 1;
        }
        proof {
            assert forall|k: int| 0 <= k < src@.len() && k != m implies canon_lt(
                src@[m as int] as nat,
                (#[trigger] src@[k]) as nat,
            ) by {
                lemma_canon_connex(src@[m as int] as nat, src@[k] as nat);
            }
        }
        let picked = src[m];
        let ghost old_out = out@;
        let ghost old_src = src@;
        out.push(picked);
        src.remove(m);
        proof {
            assert(out@ == old_out.push(picked));
            assert(src@ == old_src.remove(m as int));
            assert(forall|s: int|
                0 <= s < src@.len() ==> #[trigger] src@[s] == (if s < m {
                    old_src[s]
                } else {
                    old_src[s + 1]
                }));
            assert forall|x: u16| (out@.contains(x) || src@.contains(x)) <==> xs@.contains(
                x,
            ) by {
                if out@.contains(x) {
                    let k = choose|k: int| 0 <= k < out@.len() && out@[k] == x;
                    if k < old_out.len() {
                        assert(old_out[k] == x);
                        assert(old_out.contains(x));
                    } else {
                        assert(x == picked);
                        assert(old_src[m as int] == x);
                        assert(old_src.contains(x));
                    }
                }
                if src@.contains(x) {
                    let k = choose|k: int| 0 <= k < src@.len() && src@[k] == x;
                    if k < m {
                        assert(old_src[k] == x);
                    } else {
                        assert(old_src[k + 1] == x);
                    }
                    assert(old_src.contains(x));
                }
                if xs@.contains(x) {
                    if old_out.contains(x) {
                        let k = choose|k: int| 0 <= k < old_out.len() && old_out[k] == x;
                        assert(out@[k] == x);
                    } else {
                        assert(old_src.contains(x));
                        let k = choose|k: int| 0 <= k < old_src.len() && old_src[k] == x;
                        if k == m {
                            assert(out@[old_out.len() as int] == x);
                        } else if k < m {
                            assert(src@[k] == x);
                        } else {
                            assert(src@[k - 1] == x);
                        }
                    }
                }
            }
            assert forall|k1: int, k2: int| 0 <= k1 < k2 < out@.len() implies canon_lt(
                #[trigger] out@[k1] as nat,
                #[trigger] out@[k2] as nat,
            ) by {
                if k2 == out@.len() - 1 {
                    assert(out@[k1] == old_out[k1]);
                    assert(out@[k2] == old_src[m as int]);
                }
            }
            assert forall|o: int, s: int|
                0 <= o < out@.len() && 0 <= s < src@.len() implies canon_lt(
                (#[trigger] out@[o]) as nat,
                (#[trigger] src@[s]) as nat,
            ) by {
                let s_old: int = if s < m {
                    s
                } else {
                    s + 1
                };
                assert(src@[s] == old_src[s_old]);
                if o == out@.len() - 1 {
                    assert(out@[o] == old_src[m as int]);
                    assert(s_old != m);
                } else {
                    assert(out@[o] == old_out[o]);
                }
            }
        }
    }
    proof {
        assert forall|x: u16| out@.contains(x) <==> xs@.contains(x) by {
            assert(!src@.contains(x)) by {
                if src@.contains(x) {
                    let k = choose|k: int| 0 <= k < src@.len() && src@[k] == x;
                }
            }
        }
    }
    out
}

/// A single-lane read of a class-typed variable: group access, then lane
/// selection.
fn lane_expr(class_ix: usize, var: VarName, group: usize, lane: usize, group_len: usize) -> (r:
    Expression)
{
    Expression {
        size: 1,
        content: ExpressionContent::Swizzle(
            Box::new(
                Expression {
                    size: group_len,
                    content: ExpressionContent::Access(
                        Box::new(
                            Expression {
                                size: 1,
                                content: ExpressionContent::Variable(
                                    DataType::MultiVector(class_ix),
                                    var,
                                ),
                            },
                        ),
                        group,
                    ),
                },
            ),
            vec![lane],
        ),
    }
}

/// A class-typed variable expression.
fn var_expr(class_ix: usize, var: VarName) -> (r: Expression)
    ensures
        r.size == 1,
        r.content == ExpressionContent::Variable(DataType::MultiVector(class_ix), var),
{
    Expression {
        size: 1,
        content: ExpressionContent::Variable(DataType::MultiVector(class_ix), var),
    }
}

/// An instance-method invocation with no arguments.
fn invoke0(result_dt: DataType, object: Expression, kind: OperationKind, object_dt: DataType) -> (r:
    Expression)
    ensures
        r.size == 1,
        r.content matches ExpressionContent::InvokeInstanceMethod(rdt, obj, k, odt, args) && rdt
            == result_dt && k == kind && odt == object_dt && *obj == object && args@.len() == 0,
{
    Expression {
        size: 1,
        content: ExpressionContent::InvokeInstanceMethod(
            result_dt,
            Box::new(object),
            kind,
            object_dt,
            Vec::new(),
        ),
    }
}

/// An instance-method invocation with one typed argument.
fn invoke1(
    result_dt: DataType,
    object: Expression,
    kind: OperationKind,
    object_dt: DataType,
    arg_dt: DataType,
    arg: Expression,
) -> (r: Expression)
    ensures
        r.size == 1,
        r.content matches ExpressionContent::InvokeInstanceMethod(rdt, obj, k, odt, args) && rdt
            == result_dt && k == kind && odt == object_dt && *obj == object && args@ =~= seq![
            (arg_dt, arg),
        ],
{
    let mut args: Vec<(DataType, Expression)> = Vec::new();
    args.push((arg_dt, arg));
    Expression {
        size: 1,
        content: ExpressionContent::InvokeInstanceMethod(
            result_dt,
            Box::new(object),
            kind,
            object_dt,
            args,
        ),
    }
}

/// A one-lane literal.
fn scalar_const(v: i64) -> (r: Expression)
    ensures
        r.size == 1,
        r.content matches ExpressionContent::Constant(dt, lanes) && dt == DataType::SimdVector(1)
            && lanes@ =~= seq![v],
{
    let mut lanes: Vec<i64> = Vec::new();
    lanes.push(v);
    Expression { size: 1, content: ExpressionContent::Constant(DataType::SimdVector(1), lanes) }
}

/// The registry index of the result class of a stored operation node.
fn node_result_class(node: &AstNode) -> (r: Option<usize>)
    ensures
        match r {
            Some(ix) => node matches AstNode::TraitImplementation { result, .. }
                && result.data_type == DataType::MultiVector(ix),
            None => true,
        },
{
    match node {
        AstNode::TraitImplementation { result, .. } => {
            match result.data_type {
                DataType::MultiVector(ix) => Some(ix),
                _ => None,
            }
        },
        _ => None,
    }
}

/// The result parameter of a stored operation node.
fn node_result(node: &AstNode) -> (r: Option<Parameter>)
    ensures
        match r {
            Some(p) => node matches AstNode::TraitImplementation { result, .. } && result == p,
            None => !(node matches AstNode::TraitImplementation { .. }),
        },
{
    match node {
        AstNode::TraitImplementation { result, .. } => Some(*result),
        _ => None,
    }
}

/// Whether the class holds the scalar blade.
pub open spec fn has_scalar_blade(c: &MultiVectorClass) -> bool {
    exists|i: int| 0 <= i < c.flat_spec().len() && (#[trigger] c.flat_spec()[i]).index == 0
}

/// A whole-group read: `Access` of the given group on the given variable.
pub open spec fn access_ok(e: Expression, ix: usize, name: VarName, g: int, len: nat) -> bool {
    e.size == len && (e.content matches ExpressionContent::Access(inner, gi) && gi == g
        && inner.size == 1 && (inner.content matches ExpressionContent::Variable(dt, nm) && dt
        == DataType::MultiVector(ix) && nm == name))
}

/// One group of an element-wise body: the operation of the two groups' reads.
pub open spec fn element_wise_group_ok(
    arg: (DataType, Expression),
    kind: OperationKind,
    a_ix: usize,
    b_ix: usize,
    a_name: VarName,
    b_name: VarName,
    g: int,
    len: nat,
) -> bool {
    (arg.0 matches DataType::SimdVector(sz) && sz == len) && arg.1.size == len && (match arg.1.content {
        ExpressionContent::Add(l, r) => kind == OperationKind::Add && access_ok(
            *l,
            a_ix,
            a_name,
            g,
            len,
        ) && access_ok(*r, b_ix, b_name, g, len),
        ExpressionContent::Subtract(l, r) => kind == OperationKind::Sub && access_ok(
            *l,
            a_ix,
            a_name,
            g,
            len,
        ) && access_ok(*r, b_ix, b_name, g, len),
        ExpressionContent::Multiply(l, r) => kind == OperationKind::Mul && access_ok(
            *l,
            a_ix,
            a_name,
            g,
            len,
        ) && access_ok(*r, b_ix, b_name, g, len),
        ExpressionContent::Divide(l, r) => kind == OperationKind::Div && access_ok(
            *l,
            a_ix,
            a_name,
            g,
            len,
        ) && access_ok(*r, b_ix, b_name, g, len),
        _ => false,
    })
}


/// A bare variable read of the given type and name.
pub open spec fn var_ok(e: Expression, dt: DataType, name: VarName) -> bool {
    e.size == 1 && e.content == ExpressionContent::Variable(dt, name)
}

/// A no-argument instance invocation of `kind` on the named variable.
pub open spec fn invoke0_ok(
    e: Expression,
    rdt: DataType,
    kind: OperationKind,
    odt: DataType,
    name: VarName,
) -> bool {
    e.size == 1 && (e.content matches ExpressionContent::InvokeInstanceMethod(r2, obj, k, o2, args)
        && r2 == rdt && k == kind && o2 == odt && var_ok(*obj, odt, name) && args@.len() == 0)
}

/// The literal one.
pub open spec fn one_const_ok(e: Expression) -> bool {
    e.size == 1 && (e.content matches ExpressionContent::Constant(dt, lanes) && dt
        == DataType::SimdVector(1) && lanes@ =~= seq![1i64])
}

/// The reciprocal of a no-argument invocation: one divided by it.
pub open spec fn recip_ok(
    e: Expression,
    inner_dt: DataType,
    kind: OperationKind,
    odt: DataType,
    name: VarName,
) -> bool {
    e.size == 1 && (e.content matches ExpressionContent::Divide(l, r) && one_const_ok(*l)
        && invoke0_ok(*r, inner_dt, kind, odt, name))
}

/// Body of the squared magnitude: the scalar product of the element with its
/// reverse.
pub open spec fn sqmag_body_ok(
    body: Seq<AstNode>,
    a_dt: DataType,
    a_name: VarName,
    sp_dt: DataType,
    rev_dt: DataType,
) -> bool {
    body.len() == 1 && (body[0] matches AstNode::ReturnStatement { expression } && expression.size
        == 1 && (expression.content matches ExpressionContent::InvokeInstanceMethod(
        rdt,
        obj,
        k,
        odt,
        args,
    ) && rdt == sp_dt && k == OperationKind::ScalarProduct && odt == a_dt && var_ok(
        *obj,
        a_dt,
        a_name,
    ) && args@.len() == 1 && args@[0].0 == rev_dt && invoke0_ok(
        args@[0].1,
        rev_dt,
        OperationKind::Reversal,
        a_dt,
        a_name,
    )))
}

/// Body of the magnitude: the square root of the squared magnitude.
pub open spec fn magnitude_body_ok(
    body: Seq<AstNode>,
    a_dt: DataType,
    a_name: VarName,
    sq_dt: DataType,
) -> bool {
    body.len() == 1 && (body[0] matches AstNode::ReturnStatement { expression } && expression.size
        == 1 && (expression.content matches ExpressionContent::SquareRoot(inner) && invoke0_ok(
        *inner,
        sq_dt,
        OperationKind::SquaredMagnitude,
        a_dt,
        a_name,
    )))
}

/// Body of the scale: the geometric product of the two operands.
pub open spec fn scale_body_ok(
    body: Seq<AstNode>,
    a_dt: DataType,
    a_name: VarName,
    b_dt: DataType,
    b_name: VarName,
    gp_dt: DataType,
) -> bool {
    body.len() == 1 && (body[0] matches AstNode::ReturnStatement { expression } && expression.size
        == 1 && (expression.content matches ExpressionContent::InvokeInstanceMethod(
        rdt,
        obj,
        k,
        odt,
        args,
    ) && rdt == gp_dt && k == OperationKind::GeometricProduct && odt == a_dt && var_ok(
        *obj,
        a_dt,
        a_name,
    ) && args@.len() == 1 && args@[0].0 == b_dt && var_ok(args@[0].1, b_dt, b_name)))
}

/// Body of the signum: the element times the reciprocal of its magnitude.
pub open spec fn signum_body_ok(
    body: Seq<AstNode>,
    a_dt: DataType,
    a_name: VarName,
    gp_dt: DataType,
    mag_dt: DataType,
) -> bool {
    body.len() == 1 && (body[0] matches AstNode::ReturnStatement { expression } && expression.size
        == 1 && (expression.content matches ExpressionContent::InvokeInstanceMethod(
        rdt,
        obj,
        k,
        odt,
        args,
    ) && rdt == gp_dt && k == OperationKind::GeometricProduct && odt == a_dt && var_ok(
        *obj,
        a_dt,
        a_name,
    ) && args@.len() == 1 && args@[0].0 == mag_dt && recip_ok(
        args@[0].1,
        mag_dt,
        OperationKind::Magnitude,
        a_dt,
        a_name,
    )))
}

/// Body of the inverse: the reverse times the reciprocal of the squared
/// magnitude.
pub open spec fn inverse_body_ok(
    body: Seq<AstNode>,
    a_dt: DataType,
    a_name: VarName,
    gp_dt: DataType,
    sq_dt: DataType,
    rev_dt: DataType,
) -> bool {
    body.len() == 1 && (body[0] matches AstNode::ReturnStatement { expression } && expression.size
        == 1 && (expression.content matches ExpressionContent::InvokeInstanceMethod(
        rdt,
        obj,
        k,
        odt,
        args,
    ) && rdt == gp_dt && k == OperationKind::GeometricProduct && odt == a_dt && invoke0_ok(
        *obj,
        rev_dt,
        OperationKind::Reversal,
        a_dt,
        a_name,
    ) && args@.len() == 1 && args@[0].0 == sq_dt && recip_ok(
        args@[0].1,
        sq_dt,
        OperationKind::SquaredMagnitude,
        a_dt,
        a_name,
    )))
}

/// Body of the geometric quotient: the product with the right operand's
/// inverse.
pub open spec fn quotient_body_ok(
    body: Seq<AstNode>,
    a_dt: DataType,
    a_name: VarName,
    b_dt: DataType,
    b_name: VarName,
    gp_dt: DataType,
    inv_dt: DataType,
) -> bool {
    body.len() == 1 && (body[0] matches AstNode::ReturnStatement { expression } && expression.size
        == 1 && (expression.content matches ExpressionContent::InvokeInstanceMethod(
        rdt,
        obj,
        k,
        odt,
        args,
    ) && rdt == gp_dt && k == OperationKind::GeometricProduct && odt == a_dt && var_ok(
        *obj,
        a_dt,
        a_name,
    ) && args@.len() == 1 && args@[0].0 == inv_dt && invoke0_ok(
        args@[0].1,
        inv_dt,
        OperationKind::Inverse,
        b_dt,
        b_name,
    )))
}

/// The inner sandwich chain: GeometricProduct(GeometricProduct(a, b),
/// Reversal(a)).
pub open spec fn sandwich_chain_ok(
    e: Expression,
    a_dt: DataType,
    a_name: VarName,
    b_dt: DataType,
    b_name: VarName,
    gp_dt: DataType,
    gp2_dt: DataType,
    rev_dt: DataType,
) -> bool {
    e.size == 1 && (e.content matches ExpressionContent::InvokeInstanceMethod(r2, obj, k, o2, args)
        && r2 == gp2_dt && k == OperationKind::GeometricProduct && o2 == gp_dt && (obj.size == 1
        && (obj.content matches ExpressionContent::InvokeInstanceMethod(r3, obj2, k3, o3, args3)
        && r3 == gp_dt && k3 == OperationKind::GeometricProduct && o3 == a_dt && var_ok(
        *obj2,
        a_dt,
        a_name,
    ) && args3@.len() == 1 && args3@[0].0 == b_dt && var_ok(args3@[0].1, b_dt, b_name))) && args@.len()
        == 1 && args@[0].0 == rev_dt && invoke0_ok(
        args@[0].1,
        rev_dt,
        OperationKind::Reversal,
        a_dt,
        a_name,
    ))
}

/// Body of the transformation: the sandwich chain, converted into the
/// operand's class when a conversion exists.
pub open spec fn transformation_body_ok(
    body: Seq<AstNode>,
    a_dt: DataType,
    a_name: VarName,
    b_dt: DataType,
    b_name: VarName,
    gp_dt: DataType,
    gp2_dt: DataType,
    rev_dt: DataType,
    converted: bool,
    b_ix: usize,
) -> bool {
    body.len() == 1 && (body[0] matches AstNode::ReturnStatement { expression } && (if converted {
        expression.size == 1 && (expression.content matches ExpressionContent::Conversion(
            src,
            dst,
            inner,
        ) && dst == b_ix && sandwich_chain_ok(
            *inner,
            a_dt,
            a_name,
            b_dt,
            b_name,
            gp_dt,
            gp2_dt,
            rev_dt,
        ))
    } else {
        sandwich_chain_ok(*expression, a_dt, a_name, b_dt, b_name, gp_dt, gp2_dt, rev_dt)
    }))
}


/// A literal integer lane.
pub open spec fn int_const_ok(e: Expression, v: i64) -> bool {
    e.size == 1 && (e.content matches ExpressionContent::Constant(dt, lanes) && dt
        == DataType::SimdVector(1) && lanes@ =~= seq![v])
}

/// The exponent-is-negative test.
pub open spec fn exp_negative_ok(e: Expression, exp_name: VarName) -> bool {
    e.size == 1 && (e.content matches ExpressionContent::LessThan(l, r) && var_ok(
        *l,
        DataType::Integer,
        exp_name,
    ) && int_const_ok(*r, 0))
}

/// Body of the integer power: invert the base for a negative exponent, then
/// multiply the One constant by the base, absolute-exponent many times.
pub open spec fn powi_body_ok(
    body: Seq<AstNode>,
    a_ix: usize,
    a_dt: DataType,
    a_name: VarName,
    exp_name: VarName,
) -> bool {
    body.len() == 6 && (body[0] matches AstNode::VariableAssignment {
        name: n0,
        data_type: d0,
        expression: e0,
    } && n0 == VarName::Base && d0 == Some(a_dt) && e0.size == 1 && (e0.content
        matches ExpressionContent::Select(c0, t0, f0) && exp_negative_ok(*c0, exp_name)
        && invoke0_ok(*t0, a_dt, OperationKind::Inverse, a_dt, a_name) && var_ok(
        *f0,
        a_dt,
        a_name,
    ))) && (body[1] matches AstNode::VariableAssignment {
        name: n1,
        data_type: d1,
        expression: e1,
    } && n1 == VarName::Accum && d1 == Some(a_dt) && e1.size == 1 && (e1.content
        matches ExpressionContent::InvokeClassMethod(cix, k1, args1) && cix == a_ix && k1
        == OperationKind::One && args1@.len() == 0)) && (body[2]
        matches AstNode::VariableAssignment { name: n2, data_type: d2, expression: e2 } && n2
        == VarName::Limit && d2 == Some(DataType::Integer) && e2.size == 1 && (e2.content
        matches ExpressionContent::Select(c2, t2, f2) && exp_negative_ok(*c2, exp_name)
        && (t2.size == 1 && (t2.content matches ExpressionContent::Subtract(sl, sr)
        && int_const_ok(*sl, 0) && var_ok(*sr, DataType::Integer, exp_name))) && var_ok(
        *f2,
        DataType::Integer,
        exp_name,
    ))) && (body[3] matches AstNode::VariableAssignment {
        name: n3,
        data_type: d3,
        expression: e3,
    } && n3 == VarName::Counter && d3 == Some(DataType::Integer) && int_const_ok(*e3, 0)) && (
    body[4] matches AstNode::WhileLoopBlock { condition, body: loop_body } && (condition.size == 1
        && (condition.content matches ExpressionContent::LessThan(cl, cr) && var_ok(
        *cl,
        DataType::Integer,
        VarName::Counter,
    ) && var_ok(*cr, DataType::Integer, VarName::Limit))) && loop_body@.len() == 2 && (loop_body@[0]
        matches AstNode::VariableAssignment { name: ln0, data_type: ld0, expression: le0 } && ln0
        == VarName::Accum && ld0 is None && (le0.size == 1 && (le0.content
        matches ExpressionContent::InvokeInstanceMethod(prdt, pobj, pk, podt, pargs) && prdt
        == a_dt && pk == OperationKind::GeometricProduct && podt == a_dt && var_ok(
        *pobj,
        a_dt,
        VarName::Accum,
    ) && pargs@.len() == 1 && pargs@[0].0 == a_dt && var_ok(pargs@[0].1, a_dt, VarName::Base))))
        && (loop_body@[1] matches AstNode::VariableAssignment {
        name: ln1,
        data_type: ld1,
        expression: le1,
    } && ln1 == VarName::Counter && ld1 is None && (le1.size == 1 && (le1.content
        matches ExpressionContent::Add(al, ar) && var_ok(*al, DataType::Integer, VarName::Counter)
        && int_const_ok(*ar, 1))))) && (body[5] matches AstNode::ReturnStatement { expression }
        && var_ok(*expression, a_dt, VarName::Accum))
}

/// The grouped blades of two classes coincide slot for slot.
pub open spec fn same_shape(a: &MultiVectorClass, b: &MultiVectorClass) -> bool {
    a.grouped_basis@.map_values(|g: Vec<BasisElement>| g@) == b.grouped_basis@.map_values(
        |g: Vec<BasisElement>| g@,
    )
}

/// The lane of a constant: zero, except one at the scalar blade's slot for
/// the One constant.
pub open spec fn lane_value_ok(kind: OperationKind, b: BasisElement, v: i64) -> bool {
    v == (if kind == OperationKind::One && b.index == 0 {
        1i64
    } else {
        0i64
    })
}

/// One lane group of a constant body: a literal vector of the proper width
/// whose lanes follow `lane_value_ok`.
pub open spec fn constant_group_ok(
    arg: (DataType, Expression),
    kind: OperationKind,
    group: Seq<BasisElement>,
) -> bool {
    (arg.0 matches DataType::SimdVector(sz) && sz == group.len()) && (arg.1.content
        matches ExpressionContent::Constant(dt, lanes) && (dt matches DataType::SimdVector(sz2)
        && sz2 == group.len()) && lanes@.len() == group.len() && (forall|l: int|
        0 <= l < lanes@.len() ==> lane_value_ok(kind, #[trigger] group[l], lanes@[l])))
}

/// The body of a constant: one return of the class constructor applied to
/// the literal lane groups.
pub open spec fn constant_body_ok(
    body: Seq<AstNode>,
    class_ix: usize,
    kind: OperationKind,
    c: &MultiVectorClass,
) -> bool {
    body.len() == 1 && (body[0] matches AstNode::ReturnStatement { expression } && (
    expression.content matches ExpressionContent::InvokeClassMethod(cix, ck, args) && cix
        == class_ix && ck == OperationKind::Constructor && args@.len() == c.grouped_basis@.len()
        && (forall|g: int|
        0 <= g < args@.len() ==> constant_group_ok(
            #[trigger] args@[g],
            kind,
            c.grouped_basis@[g]@,
        ))))
}

/// The last mapped source for a result blade, with its sign coefficient:
/// `None` when the coefficient leaves the scalar range, `Some(None)` when no
/// mapped entry carries the index.
fn slot_source(mapped: &Vec<(usize, BasisElement)>, rb: BasisElement) -> (r: Option<
    Option<(usize, i64)>,
>)
    ensures
        match r {
            None => last_with(lift_mapped(mapped@), rb.index) matches Some(m)
                && !crate::algebra::i64_fits((m.1.scalar as int) * (rb.scalar as int)),
            Some(inner) => match inner {
                None => last_with(lift_mapped(mapped@), rb.index) is None,
                Some(pc) => last_with(lift_mapped(mapped@), rb.index) matches Some(m) && m.0
                    == pc.0 as int && (pc.1 as int) == (m.1.scalar as int) * (rb.scalar as int),
            },
        },
{
    let mut src: Option<usize> = None;
    let mut q: usize = 0;
    while q < mapped.len()
        invariant
            q <= mapped@.len(),
            match src {
                Some(qq) => qq < q && mapped@[qq as int].1.index == rb.index && (forall|m: int|
                    qq < m < q ==> (#[trigger] mapped@[m]).1.index != rb.index),
                None => forall|m: int|
                    0 <= m < q ==> (#[trigger] mapped@[m]).1.index != rb.index,
            },
        decreases mapped@.len() - q,
    {
        if mapped[q].1.index == rb.index {
            src = Some(q);
        }
        q = q + 1;
    }
    proof {
        lemma_last_with_characterize(lift_mapped(mapped@), rb.index);
        assert(lift_mapped(mapped@).len() == mapped@.len());
        assert(forall|m: int|
            0 <= m < mapped@.len() ==> (#[trigger] lift_mapped(mapped@)[m]).1 == mapped@[m].1
                && lift_mapped(mapped@)[m].0 == mapped@[m].0);
    }
    match src {
        Some(qq) => {
            let entry = mapped[qq];
            proof {
                assert(last_with(lift_mapped(mapped@), rb.index) == Option::Some(
                    lift_mapped(mapped@)[qq as int],
                ));
            }
            match mul_scalars(entry.1.scalar, rb.scalar) {
                Some(v) => Some(Some((entry.0, v))),
                None => None,
            }
        },
        None => Some(None),
    }
}

impl MultiVectorClass {
    /// The Zero and One constants of a class.  One exists only when the class
    /// holds the scalar blade; Zero always.
    pub fn constant(class_ix: usize, registry: &MultiVectorClassRegistry, kind: OperationKind) -> (r:
        AstNode)
        requires
            class_ix < registry.classes@.len(),
            kind == OperationKind::Zero || kind == OperationKind::One,
        ensures
            r is Empty <==> (kind == OperationKind::One && !has_scalar_blade(
                &registry.classes@[class_ix as int],
            )),
            !(r is Empty) ==> (r matches AstNode::TraitImplementation {
                kind: k,
                result,
                parameters,
                body,
            } && k == kind && result.data_type == DataType::MultiVector(class_ix)
                && parameters@.len() == 0 && constant_body_ok(
                body@,
                class_ix,
                kind,
                &registry.classes@[class_ix as int],
            )),
    {
        let class = &registry.classes[class_ix];
        if kind == OperationKind::One {
            let flat = class.flat_basis();
            match index_of_blade(&flat, 0) {
                Some(_) => {
                    proof {
                        assert(has_scalar_blade(&registry.classes@[class_ix as int])) by {
                            let i = choose|i: int|
                                0 <= i < flat@.len() && flat@[i].index == 0;
                        }
                    }
                },
                None => {
                    proof {
                        assert(!has_scalar_blade(&registry.classes@[class_ix as int]));
                    }
                    return AstNode::Empty;
                },
            }
        }
        let mut args: Vec<(DataType, Expression)> = Vec::new();
        let mut g: usize = 0;
        while g < class.grouped_basis.len()
            invariant
                class == &registry.classes@[class_ix as int],
                kind == OperationKind::Zero || kind == OperationKind::One,
                g <= class.grouped_basis@.len(),
                args@.len() == g,
                forall|g2: int|
                    0 <= g2 < g ==> constant_group_ok(
                        #[trigger] args@[g2],
                        kind,
                        class.grouped_basis@[g2]@,
                    ),
            decreases class.grouped_basis@.len() - g,
        {
            let group_len = class.grouped_basis[g].len();
            let ghost gseq = class.grouped_basis@[g as int]@;
            let mut lanes: Vec<i64> = Vec::new();
            let mut l: usize = 0;
            while l < group_len
                invariant
                    class == &registry.classes@[class_ix as int],
                    kind == OperationKind::Zero || kind == OperationKind::One,
                    g < class.grouped_basis@.len(),
                    gseq == class.grouped_basis@[g as int]@,
                    group_len == gseq.len(),
                    l <= group_len,
                    lanes@.len() == l,
                    forall|l2: int|
                        0 <= l2 < l ==> lane_value_ok(kind, #[trigger] gseq[l2], lanes@[l2]),
                decreases group_len - l,
            {
                let blade = class.grouped_basis[g][l];
                proof {
                    assert(blade == gseq[l as int]);
                }
                let one_here = kind == OperationKind::One && blade.index == 0;
                let lane_value: i64 = if one_here {
                    1
                } else {
                    0
                };
                let ghost old_lanes = lanes@;
                lanes.push(lane_value);
                proof {
                    assert(lane_value_ok(kind, blade, lane_value));
                    assert(lanes@ == old_lanes.push(lane_value));
                    assert forall|l2: int| 0 <= l2 < l + 1 implies lane_value_ok(
                        kind,
                        #[trigger] gseq[l2],
                        lanes@[l2],
                    ) by {
                        if l2 < l {
                            assert(lanes@[l2] == old_lanes[l2]);
                        } else {
                            assert(lanes@[l2] == lane_value);
                            assert(gseq[l2] == blade);
                        }
                    }
                }
                l = l + 1;
            }
            let arg = (
                DataType::SimdVector(group_len),
                Expression {
                    size: group_len,
                    content: ExpressionContent::Constant(DataType::SimdVector(group_len), lanes),
                },
            );
            proof {
                assert(constant_group_ok(arg, kind, class.grouped_basis@[g as int]@));
            }
            args.push(arg);
            g = g + 1;
        }
        AstNode::TraitImplementation {
            kind,
            result: Parameter { name: VarName::SelfName, data_type: DataType::MultiVector(class_ix) },
            parameters: Vec::new(),
            body: vec![
                AstNode::ReturnStatement {
                    expression: Box::new(
                        Expression {
                            size: 1,
                            content: ExpressionContent::InvokeClassMethod(
                                class_ix,
                                OperationKind::Constructor,
                                args,
                            ),
                        },
                    ),
                },
            ],
        }
    }

    /// Applies an involution to a class: each blade is mapped through the
    /// last involution term carrying its index, the registry is consulted for
    /// the class whose signature holds the mapped indices in canonical order,
    /// and the result is assembled group by group by gathering source lanes
    /// with sign coefficients.  The sentinel is produced exactly when a blade
    /// has no image (outside a projection), an image or slot coefficient
    /// leaves the scalar range, or no registered class matches.
    #[verifier::rlimit(100)]
    pub fn involution(
        kind: OperationKind,
        inv: &Involution,
        parameter_a: &Parameter,
        registry: &MultiVectorClassRegistry,
        explicit_projection: bool,
    ) -> (r: AstNode)
        requires
            registry.wf(),
            parameter_a.data_type is MultiVector,
            parameter_a.data_type matches DataType::MultiVector(ix) && ix
                < registry.classes@.len(),
        ensures
            ({
                let fa = registry.classes@[(parameter_a.data_type->MultiVector_0) as int].flat_spec();
                let terms = inv.terms@;
                &&& (r is Empty <==> ((!explicit_projection && inv_unmatched(fa, terms))
                    || inv_map_overflow(fa, terms) || inv_lookup_fails(fa, terms, registry) || (
                exists|sigr: Seq<u16>|
                    is_canon_sig(sigr, mapped_indices(fa, terms)) && (
                    #[trigger] registry.lookup_spec(sigr) matches Some(rix)
                        && inv_assembly_overflow(
                        registry.classes@[rix as int],
                        mapped_pairs(fa, terms, 0),
                    )))))
                &&& !(r is Empty) ==> (r matches AstNode::TraitImplementation {
                    kind: k,
                    result,
                    parameters,
                    body,
                } && k == kind && parameters@.len() == 1 && parameters@[0] == *parameter_a && (
                result.data_type matches DataType::MultiVector(rx) && rx < registry.classes@.len()
                    && (exists|sigr: Seq<u16>|
                    is_canon_sig(sigr, mapped_indices(fa, terms))
                        && #[trigger] registry.lookup_spec(sigr) == Option::Some(rx))
                    && involution_body_shape(
                    body@,
                    rx,
                    registry.classes@[rx as int],
                    parameter_a.data_type->MultiVector_0,
                    parameter_a.name,
                )))
            }),
    {
        let a_ix = parameter_a.multi_vector_class();
        let class_a = &registry.classes[a_ix];
        let flat_a = class_a.flat_basis();
        let _flat_a_len = flat_a.len();
        let ghost fa = flat_a@;
        let ghost terms = inv.terms@;
        proof {
            assert(flat_a@.len() <= usize::MAX);
            assert(fa.skip(0) =~= fa);
        }
        // Map each blade of the class through the involution.
        let mut mapped: Vec<(usize, BasisElement)> = Vec::new();
        let mut i: usize = 0;
        while i < flat_a.len()
            invariant
                fa == flat_a@,
                terms == inv.terms@,
                a_ix < registry.classes@.len(),
                parameter_a.data_type == DataType::MultiVector(a_ix),
                fa == registry.classes@[a_ix as int].flat_spec(),
                i <= fa.len(),
                forall|k: int|
                    0 <= k < mapped@.len() ==> (#[trigger] mapped@[k]).0 < fa.len(),
                lift_mapped(mapped@) + mapped_pairs(fa.skip(i as int), terms, i as int)
                    == mapped_pairs(fa, terms, 0),
                forall|i2: int|
                    0 <= i2 < i ==> (inv_find(terms, (#[trigger] fa[i2]).index) matches Some(t)
                        ==> inv_image_fits(fa[i2], t)),
                !explicit_projection ==> forall|i2: int|
                    0 <= i2 < i ==> inv_find(terms, (#[trigger] fa[i2]).index) is Some,
            decreases fa.len() - i,
        {
            let blade = flat_a[i];
            proof {
                assert(fa.skip(i as int)[0] == blade);
                assert(fa.skip(i as int).skip(1) =~= fa.skip(i as int + 1));
            }
            // Find the last involution term carrying this blade's index.
            let mut found_j: Option<usize> = None;
            let mut j: usize = 0;
            while j < inv.terms.len()
                invariant
                    terms == inv.terms@,
                    j <= terms.len(),
                    match found_j {
                        Some(jj) => jj < j && terms[jj as int].0.index == blade.index && (forall|
                            m: int,
                        |
                            jj < m < j ==> (#[trigger] terms[m]).0.index != blade.index),
                        None => forall|m: int|
                            0 <= m < j ==> (#[trigger] terms[m]).0.index != blade.index,
                    },
                decreases terms.len() - j,
            {
                if inv.terms[j].0.index == blade.index {
                    found_j = Some(j);
                }
                j = j + 1;
            }
            proof {
                lemma_inv_find_characterize(terms, blade.index);
            }
            match found_j {
                Some(jj) => {
                    let term = &inv.terms[jj];
                    proof {
                        assert(inv_find(terms, blade.index) == Option::Some(terms[jj as int]));
                    }
                    // Linear extension: the class blade is a signed multiple
                    // of the involution's key blade.
                    let c1 = match mul_scalars(blade.scalar, term.0.scalar) {
                        Some(v) => v,
                        None => {
                            proof {
                                assert(!inv_image_fits(fa[i as int], terms[jj as int]));
                                assert(inv_map_overflow(fa, terms));
                            }
                            return AstNode::Empty;
                        },
                    };
                    let c2 = match mul_scalars(c1, term.1.scalar) {
                        Some(v) => v,
                        None => {
                            proof {
                                assert(!inv_image_fits(fa[i as int], terms[jj as int]));
                                assert(inv_map_overflow(fa, terms));
                            }
                            return AstNode::Empty;
                        },
                    };
                    let image = BasisElement { scalar: c2, index: term.1.index };
                    let ghost old_mapped = mapped@;
                    mapped.push((i, image));
                    proof {
                        assert(image == inv_image(fa[i as int], terms[jj as int]));
                        assert(mapped_pairs(fa.skip(i as int), terms, i as int) == seq![
                            ((i as int), inv_image(fa[i as int], terms[jj as int])),
                        ] + mapped_pairs(fa.skip(i as int + 1), terms, i as int + 1));
                        assert(lift_mapped(mapped@) =~= lift_mapped(old_mapped).push(
                            (i as int, image),
                        ));
                        assert(lift_mapped(mapped@) + mapped_pairs(
                            fa.skip(i as int + 1),
                            terms,
                            i as int + 1,
                        ) =~= lift_mapped(old_mapped) + mapped_pairs(
                            fa.skip(i as int),
                            terms,
                            i as int,
                        ));
                    }
                },
                None => {
                    proof {
                        assert(inv_find(terms, blade.index) is None);
                        assert(mapped_pairs(fa.skip(i as int), terms, i as int) =~= mapped_pairs(
                            fa.skip(i as int + 1),
                            terms,
                            i as int + 1,
                        ));
                    }
                    if !explicit_projection {
                        proof {
                            assert(inv_unmatched(fa, terms));
                        }
                        return AstNode::Empty;
                    }
                },
            }
            i = i + 1;
        }
        proof {
            assert(mapped_pairs(fa.skip(fa.len() as int), terms, fa.len() as int) =~= Seq::<
                (int, BasisElement),
            >::empty());
            assert(lift_mapped(mapped@) =~= mapped_pairs(fa, terms, 0));
            assert(!inv_map_overflow(fa, terms));
            assert(!explicit_projection ==> !inv_unmatched(fa, terms));
        }
        // The result class: the one whose signature holds the mapped indices
        // in canonical order.
        let mut idxs: Vec<u16> = Vec::new();
        let mut k: usize = 0;
        while k < mapped.len()
            invariant
                k <= mapped@.len(),
                idxs@.len() == k,
                forall|m: int| 0 <= m < k ==> #[trigger] idxs@[m] == mapped@[m].1.index,
                forall|q: int|
                    0 <= q < mapped@.len() ==> (#[trigger] mapped@[q]).0 < flat_a@.len(),
            decreases mapped@.len() - k,
        {
            idxs.push(mapped[k].1.index);
            k = k + 1;
        }
        proof {
            assert(mapped_indices(fa, terms) =~= idxs@) by {
                assert(lift_mapped(mapped@) == mapped_pairs(fa, terms, 0));
                assert forall|m: int| 0 <= m < idxs@.len() implies mapped_indices(fa, terms)[m]
                    == idxs@[m] by {
                    assert(mapped_indices(fa, terms)[m] == mapped_pairs(fa, terms, 0)[m].1.index);
                    assert(lift_mapped(mapped@)[m].1 == mapped@[m].1);
                }
            }
        }
        let signature = sorted_unique_indices(&idxs);
        proof {
            assert(is_canon_sig(signature@, mapped_indices(fa, terms)));
        }
        let r_ix = match registry.index_of(&signature) {
            Some(ix) => ix,
            None => {
                proof {
                    assert forall|sigr: Seq<u16>|
                        is_canon_sig(sigr, mapped_indices(fa, terms)) implies #[trigger] registry.lookup_spec(
                        sigr,
                    ) is None by {
                        lemma_canon_sig_unique(sigr, signature@, mapped_indices(fa, terms));
                    }
                    assert(inv_lookup_fails(fa, terms, registry));
                }
                return AstNode::Empty;
            },
        };
        let class_r = &registry.classes[r_ix];
        // Assemble the result group by group.
        let mut args: Vec<(DataType, Expression)> = Vec::new();
        let mut g: usize = 0;
        while g < class_r.grouped_basis.len()
            invariant
                registry.wf(),
                a_ix < registry.classes@.len(),
                r_ix < registry.classes@.len(),
                class_r == &registry.classes@[r_ix as int],
                class_a == &registry.classes@[a_ix as int],
                fa == flat_a@,
                terms == inv.terms@,
                flat_a@ == class_a.flat_spec(),
                flat_a@.len() <= usize::MAX,
                fa == registry.classes@[a_ix as int].flat_spec(),
                parameter_a.data_type == DataType::MultiVector(a_ix),
                lift_mapped(mapped@) == mapped_pairs(fa, terms, 0),
                is_canon_sig(signature@, mapped_indices(fa, terms)),
                registry.lookup_spec(signature@) == Option::Some(r_ix),
                g <= class_r.grouped_basis@.len(),
                args@.len() == g,
                forall|g2: int|
                    0 <= g2 < g ==> involution_group_ok(
                        #[trigger] args@[g2],
                        a_ix,
                        parameter_a.name,
                        class_r.grouped_basis@[g2]@.len(),
                    ),
                forall|q: int|
                    0 <= q < mapped@.len() ==> (#[trigger] mapped@[q]).0 < flat_a@.len(),
                forall|g2: int, l2: int|
                    0 <= g2 < g && 0 <= l2 < class_r.grouped_basis@[g2]@.len() ==> (last_with(
                        mapped_pairs(fa, terms, 0),
                        (#[trigger] (class_r.grouped_basis@[g2])@[l2]).index,
                    ) matches Some(m) ==> crate::algebra::i64_fits(
                        (m.1.scalar as int) * (class_r.grouped_basis@[g2]@[l2].scalar as int),
                    )),
            decreases class_r.grouped_basis@.len() - g,
        {
            let group_len = class_r.grouped_basis[g].len();
            let mut pairs: Vec<(usize, usize)> = Vec::new();
            let mut coeffs: Vec<i64> = Vec::new();
            let mut all_unit = true;
            let mut l: usize = 0;
            while l < group_len
                invariant
                    registry.wf(),
                    a_ix < registry.classes@.len(),
                    r_ix < registry.classes@.len(),
                    class_r == &registry.classes@[r_ix as int],
                    class_a == &registry.classes@[a_ix as int],
                    fa == flat_a@,
                    terms == inv.terms@,
                    flat_a@ == class_a.flat_spec(),
                    flat_a@.len() <= usize::MAX,
                    fa == registry.classes@[a_ix as int].flat_spec(),
                    parameter_a.data_type == DataType::MultiVector(a_ix),
                    lift_mapped(mapped@) == mapped_pairs(fa, terms, 0),
                    is_canon_sig(signature@, mapped_indices(fa, terms)),
                    registry.lookup_spec(signature@) == Option::Some(r_ix),
                    g < class_r.grouped_basis@.len(),
                    group_len == class_r.grouped_basis@[g as int]@.len(),
                    l <= group_len,
                    pairs@.len() == l,
                    coeffs@.len() == l,
                    forall|q: int|
                        0 <= q < mapped@.len() ==> (#[trigger] mapped@[q]).0 < flat_a@.len(),
                    forall|l2: int|
                        0 <= l2 < l ==> (last_with(
                            mapped_pairs(fa, terms, 0),
                            (#[trigger] (class_r.grouped_basis@[g as int])@[l2]).index,
                        ) matches Some(m) ==> crate::algebra::i64_fits(
                            (m.1.scalar as int) * (class_r.grouped_basis@[g as int]@[
                                l2].scalar as int),
                        )),
                decreases group_len - l,
            {
                let rb = class_r.grouped_basis[g][l];
                match slot_source(&mapped, rb) {
                    Some(inner) => {
                        match inner {
                            Some(pc) => {
                                proof {
                                    assert(pc.0 < flat_a@.len()) by {
                                        lemma_last_with_member(
                                            mapped_pairs(fa, terms, 0),
                                            rb.index,
                                        );
                                        let m = last_with(
                                            mapped_pairs(fa, terms, 0),
                                            rb.index,
                                        )->Some_0;
                                        let w = choose|w: int|
                                            0 <= w < mapped_pairs(fa, terms, 0).len()
                                                && #[trigger] mapped_pairs(fa, terms, 0)[w] == m;
                                        assert(lift_mapped(mapped@)[w] == m);
                                        assert(mapped@[w].0 < flat_a@.len());
                                    }
                                }
                                let gl = locate_lane(class_a, pc.0);
                                pairs.push(gl);
                                coeffs.push(pc.1);
                                if pc.1 != 1 {
                                    all_unit = false;
                                }
                            },
                            None => {
                                pairs.push((0, 0));
                                coeffs.push(0);
                                all_unit = false;
                            },
                        }
                    },
                    None => {
                        proof {
                            assert(inv_assembly_overflow(
                                registry.classes@[r_ix as int],
                                mapped_pairs(fa, terms, 0),
                            )) by {
                                assert(0 <= g < class_r.grouped_basis@.len());
                                assert((class_r.grouped_basis@[g as int])@[l as int] == rb);
                            }
                        }
                        return AstNode::Empty;
                    },
                }
                l = l + 1;
            }
            let gather = Expression {
                size: group_len,
                content: ExpressionContent::Gather(
                    Box::new(var_expr(a_ix, parameter_a.name)),
                    pairs,
                ),
            };
            let group_expr = if all_unit {
                gather
            } else {
                Expression {
                    size: group_len,
                    content: ExpressionContent::Multiply(
                        Box::new(gather),
                        Box::new(
                            Expression {
                                size: group_len,
                                content: ExpressionContent::Constant(
                                    DataType::SimdVector(group_len),
                                    coeffs,
                                ),
                            },
                        ),
                    ),
                }
            };
            let arg = (DataType::SimdVector(group_len), group_expr);
            proof {
                assert(involution_group_ok(
                    arg,
                    a_ix,
                    parameter_a.name,
                    class_r.grouped_basis@[g as int]@.len(),
                ));
            }
            args.push(arg);
            g = g + 1;
        }
        proof {
            // No assembly overflow anywhere, for the unique matching class.
            assert forall|sigr: Seq<u16>|
                is_canon_sig(sigr, mapped_indices(fa, terms)) implies !(
            #[trigger] registry.lookup_spec(sigr) matches Some(rix) && inv_assembly_overflow(
                registry.classes@[rix as int],
                mapped_pairs(fa, terms, 0),
            )) by {
                lemma_canon_sig_unique(sigr, signature@, mapped_indices(fa, terms));
                assert(registry.lookup_spec(sigr) == Option::Some(r_ix));
                if inv_assembly_overflow(
                    registry.classes@[r_ix as int],
                    mapped_pairs(fa, terms, 0),
                ) {
                    let (g2, l2) = choose|g2: int, l2: int|
                        0 <= g2 < registry.classes@[r_ix as int].grouped_basis@.len() && 0 <= l2
                            < registry.classes@[r_ix as int].grouped_basis@[g2]@.len() && (
                        last_with(
                            mapped_pairs(fa, terms, 0),
                            (#[trigger] (registry.classes@[
                                r_ix as int].grouped_basis@[g2])@[l2]).index,
                        ) matches Some(m) && !crate::algebra::i64_fits(
                            (m.1.scalar as int) * ((registry.classes@[
                                r_ix as int].grouped_basis@[g2])@[l2].scalar as int),
                        ));
                    assert(false);
                }
            }
        }
        let mut parameters: Vec<Parameter> = Vec::new();
        parameters.push(*parameter_a);
        AstNode::TraitImplementation {
            kind,
            result: Parameter { name: VarName::SelfName, data_type: DataType::MultiVector(r_ix) },
            parameters,
            body: vec![
                AstNode::ReturnStatement {
                    expression: Box::new(
                        Expression {
                            size: 1,
                            content: ExpressionContent::InvokeClassMethod(
                                r_ix,
                                OperationKind::Constructor,
                                args,
                            ),
                        },
                    ),
                },
            ],
        }
    }

    /// Element-wise arithmetic between two identically shaped classes: the
    /// sentinel whenever the grouped blades differ in any slot.
    pub fn element_wise(
        kind: OperationKind,
        parameter_a: &Parameter,
        parameter_b: &Parameter,
        registry: &MultiVectorClassRegistry,
    ) -> (r: AstNode)
        requires
            registry.wf(),
            kind == OperationKind::Add || kind == OperationKind::Sub || kind == OperationKind::Mul
                || kind == OperationKind::Div,
            parameter_a.data_type matches DataType::MultiVector(ix) && ix
                < registry.classes@.len(),
            parameter_b.data_type matches DataType::MultiVector(ix) && ix
                < registry.classes@.len(),
        ensures
            ({
                let a_ix = parameter_a.data_type->MultiVector_0;
                let b_ix = parameter_b.data_type->MultiVector_0;
                &&& (r is Empty <==> !same_shape(
                    &registry.classes@[a_ix as int],
                    &registry.classes@[b_ix as int],
                ))
                &&& !(r is Empty) ==> (r matches AstNode::TraitImplementation {
                    kind: k,
                    result,
                    parameters,
                    body,
                } && k == kind && result.data_type == DataType::MultiVector(a_ix)
                    && parameters@.len() == 2 && parameters@[0] == *parameter_a && parameters@[1]
                    == *parameter_b && body@.len() == 1 && (body@[0]
                    matches AstNode::ReturnStatement { expression } && (expression.content
                    matches ExpressionContent::InvokeClassMethod(cix, ck, args) && cix == a_ix
                    && ck == OperationKind::Constructor && args@.len() == registry.classes@[
                    a_ix as int].grouped_basis@.len() && (forall|g: int|
                    0 <= g < args@.len() ==> element_wise_group_ok(
                        #[trigger] args@[g],
                        kind,
                        a_ix,
                        b_ix,
                        parameter_a.name,
                        parameter_b.name,
                        g,
                        registry.classes@[a_ix as int].grouped_basis@[g]@.len(),
                    )))))
            }),
    {
        let a_ix = parameter_a.multi_vector_class();
        let b_ix = parameter_b.multi_vector_class();
        let class_a = &registry.classes[a_ix];
        let class_b = &registry.classes[b_ix];
        let ghost ga = class_a.grouped_basis@.map_values(|g: Vec<BasisElement>| g@);
        let ghost gb = class_b.grouped_basis@.map_values(|g: Vec<BasisElement>| g@);
        if class_a.grouped_basis.len() != class_b.grouped_basis.len() {
            proof {
                assert(ga.len() != gb.len());
            }
            return AstNode::Empty;
        }
        let mut g: usize = 0;
        while g < class_a.grouped_basis.len()
            invariant
                parameter_a.data_type == DataType::MultiVector(a_ix),
                parameter_b.data_type == DataType::MultiVector(b_ix),
                a_ix < registry.classes@.len(),
                b_ix < registry.classes@.len(),
                class_a == &registry.classes@[a_ix as int],
                class_b == &registry.classes@[b_ix as int],
                ga == class_a.grouped_basis@.map_values(|q: Vec<BasisElement>| q@),
                gb == class_b.grouped_basis@.map_values(|q: Vec<BasisElement>| q@),
                ga.len() == gb.len(),
                g <= ga.len(),
                forall|k: int| 0 <= k < g ==> #[trigger] ga[k] == gb[k],
            decreases ga.len() - g,
        {
            let group_a = &class_a.grouped_basis[g];
            let group_b = &class_b.grouped_basis[g];
            if group_a.len() != group_b.len() {
                proof {
                    assert(ga[g as int].len() != gb[g as int].len());
                    assert(ga != gb) by {
                        if ga == gb {
                            assert(ga[g as int] == gb[g as int]);
                        }
                    }
                }
                return AstNode::Empty;
            }
            let mut l: usize = 0;
            while l < group_a.len()
                invariant
                    parameter_a.data_type == DataType::MultiVector(a_ix),
                    parameter_b.data_type == DataType::MultiVector(b_ix),
                    a_ix < registry.classes@.len(),
                    b_ix < registry.classes@.len(),
                    class_a == &registry.classes@[a_ix as int],
                    class_b == &registry.classes@[b_ix as int],
                    ga == class_a.grouped_basis@.map_values(|q: Vec<BasisElement>| q@),
                    gb == class_b.grouped_basis@.map_values(|q: Vec<BasisElement>| q@),
                    group_a@ == ga[g as int],
                    group_b@ == gb[g as int],
                    g < ga.len(),
                    group_a@.len() == group_b@.len(),
                    l <= group_a@.len(),
                    forall|k: int| 0 <= k < l ==> #[trigger] group_a@[k] == group_b@[k],
                decreases group_a@.len() - l,
            {
                if !(group_a[l].scalar == group_b[l].scalar && group_a[l].index == group_b[l].index) {
                    proof {
                        assert(ga[g as int][l as int] != gb[g as int][l as int]);
                        assert(ga != gb) by {
                            if ga == gb {
                                assert(ga[g as int] == gb[g as int]);
                            }
                        }
                    }
                    return AstNode::Empty;
                }
                l = l + 1;
            }
            proof {
                assert(ga[g as int] =~= gb[g as int]);
            }
            g = g + 1;
        }
        proof {
            assert(ga =~= gb);
        }
        let mut args: Vec<(DataType, Expression)> = Vec::new();
        let mut g2: usize = 0;
        while g2 < class_a.grouped_basis.len()
            invariant
                class_a == &registry.classes@[a_ix as int],
                kind == OperationKind::Add || kind == OperationKind::Sub || kind
                    == OperationKind::Mul || kind == OperationKind::Div,
                parameter_a.data_type == DataType::MultiVector(a_ix),
                parameter_b.data_type == DataType::MultiVector(b_ix),
                g2 <= class_a.grouped_basis@.len(),
                args@.len() == g2,
                forall|g3: int|
                    0 <= g3 < g2 ==> element_wise_group_ok(
                        #[trigger] args@[g3],
                        kind,
                        a_ix,
                        b_ix,
                        parameter_a.name,
                        parameter_b.name,
                        g3,
                        class_a.grouped_basis@[g3]@.len(),
                    ),
            decreases class_a.grouped_basis@.len() - g2,
        {
            let group_len = class_a.grouped_basis[g2].len();
            let lhs = Expression {
                size: group_len,
                content: ExpressionContent::Access(
                    Box::new(var_expr(a_ix, parameter_a.name)),
                    g2,
                ),
            };
            let rhs = Expression {
                size: group_len,
                content: ExpressionContent::Access(
                    Box::new(var_expr(b_ix, parameter_b.name)),
                    g2,
                ),
            };
            proof {
                assert(access_ok(lhs, a_ix, parameter_a.name, g2 as int, group_len as nat));
                assert(access_ok(rhs, b_ix, parameter_b.name, g2 as int, group_len as nat));
            }
            let combined = Expression {
                size: group_len,
                content: match kind {
                    OperationKind::Sub => ExpressionContent::Subtract(
                        Box::new(lhs),
                        Box::new(rhs),
                    ),
                    OperationKind::Mul => ExpressionContent::Multiply(
                        Box::new(lhs),
                        Box::new(rhs),
                    ),
                    OperationKind::Div => ExpressionContent::Divide(Box::new(lhs), Box::new(rhs)),
                    _ => ExpressionContent::Add(Box::new(lhs), Box::new(rhs)),
                },
            };
            let arg = (DataType::SimdVector(group_len), combined);
            proof {
                assert(element_wise_group_ok(
                    arg,
                    kind,
                    a_ix,
                    b_ix,
                    parameter_a.name,
                    parameter_b.name,
                    g2 as int,
                    class_a.grouped_basis@[g2 as int]@.len(),
                ));
            }
            args.push(arg);
            g2 = g2 + 1;
        }
        let mut parameters: Vec<Parameter> = Vec::new();
        parameters.push(*parameter_a);
        parameters.push(*parameter_b);
        AstNode::TraitImplementation {
            kind,
            result: Parameter { name: VarName::SelfName, data_type: DataType::MultiVector(a_ix) },
            parameters,
            body: vec![
                AstNode::ReturnStatement {
                    expression: Box::new(
                        Expression {
                            size: 1,
                            content: ExpressionContent::InvokeClassMethod(
                                a_ix,
                                OperationKind::Constructor,
                                args,
                            ),
                        },
                    ),
                },
            ],
        }
    }
}

/// Squared magnitude: the scalar product of an element with its reverse.
pub fn derive_squared_magnitude(
    scalar_product: &AstNode,
    reversal: &AstNode,
    parameter_a: &Parameter,
) -> (r: AstNode)
    ensures
        (scalar_product matches AstNode::TraitImplementation { .. } && reversal
            matches AstNode::TraitImplementation { .. }) ==> (r
            matches AstNode::TraitImplementation { kind, result, parameters, body } && kind
            == OperationKind::SquaredMagnitude && result.data_type
            == scalar_product->result.data_type && parameters@.len() == 1 && parameters@[0]
            == *parameter_a && sqmag_body_ok(
            body@,
            parameter_a.data_type,
            parameter_a.name,
            scalar_product->result.data_type,
            reversal->result.data_type,
        )),
        !(scalar_product matches AstNode::TraitImplementation { .. } && reversal
            matches AstNode::TraitImplementation { .. }) ==> r is Empty,
{
    let sp_result = match node_result(scalar_product) {
        Some(p) => p,
        None => {
            return AstNode::Empty;
        },
    };
    let rev_result = match node_result(reversal) {
        Some(p) => p,
        None => {
            return AstNode::Empty;
        },
    };
    let a_dt = parameter_a.data_type;
    let reversed = invoke0(
        rev_result.data_type,
        Expression { size: 1, content: ExpressionContent::Variable(a_dt, parameter_a.name) },
        OperationKind::Reversal,
        a_dt,
    );
    let body_expr = invoke1(
        sp_result.data_type,
        Expression { size: 1, content: ExpressionContent::Variable(a_dt, parameter_a.name) },
        OperationKind::ScalarProduct,
        a_dt,
        rev_result.data_type,
        reversed,
    );
    let mut parameters: Vec<Parameter> = Vec::new();
    parameters.push(*parameter_a);
    AstNode::TraitImplementation {
        kind: OperationKind::SquaredMagnitude,
        result: Parameter { name: VarName::SelfName, data_type: sp_result.data_type },
        parameters,
        body: vec![AstNode::ReturnStatement { expression: Box::new(body_expr) }],
    }
}

/// Magnitude: the square root of the squared magnitude.
pub fn derive_magnitude(squared_magnitude: &AstNode, parameter_a: &Parameter) -> (r: AstNode)
    ensures
        (squared_magnitude matches AstNode::TraitImplementation { .. }) ==> (r
            matches AstNode::TraitImplementation { kind, result, parameters, body } && kind
            == OperationKind::Magnitude && result.data_type
            == squared_magnitude->result.data_type && parameters@.len() == 1 && parameters@[0]
            == *parameter_a && magnitude_body_ok(
            body@,
            parameter_a.data_type,
            parameter_a.name,
            squared_magnitude->result.data_type,
        )),
        !(squared_magnitude matches AstNode::TraitImplementation { .. }) ==> r is Empty,
{
    let sq_result = match node_result(squared_magnitude) {
        Some(p) => p,
        None => {
            return AstNode::Empty;
        },
    };
    let a_dt = parameter_a.data_type;
    let inner = invoke0(
        sq_result.data_type,
        Expression { size: 1, content: ExpressionContent::Variable(a_dt, parameter_a.name) },
        OperationKind::SquaredMagnitude,
        a_dt,
    );
    let mut parameters: Vec<Parameter> = Vec::new();
    parameters.push(*parameter_a);
    AstNode::TraitImplementation {
        kind: OperationKind::Magnitude,
        result: Parameter { name: VarName::SelfName, data_type: sq_result.data_type },
        parameters,
        body: vec![
            AstNode::ReturnStatement {
                expression: Box::new(
                    Expression {
                        size: 1,
                        content: ExpressionContent::SquareRoot(Box::new(inner)),
                    },
                ),
            },
        ],
    }
}

/// Scale: the geometric product of an element with a scalar-shaped element.
pub fn derive_scale(
    geometric_product: &AstNode,
    parameter_a: &Parameter,
    parameter_b: &Parameter,
) -> (r: AstNode)
    ensures
        (geometric_product matches AstNode::TraitImplementation { .. }) ==> (r
            matches AstNode::TraitImplementation { kind, result, parameters, body } && kind
            == OperationKind::Scale && result.data_type == geometric_product->result.data_type
            && parameters@.len() == 2 && parameters@[0] == *parameter_a && parameters@[1]
            == *parameter_b && scale_body_ok(
            body@,
            parameter_a.data_type,
            parameter_a.name,
            parameter_b.data_type,
            parameter_b.name,
            geometric_product->result.data_type,
        )),
        !(geometric_product matches AstNode::TraitImplementation { .. }) ==> r is Empty,
{
    let gp_result = match node_result(geometric_product) {
        Some(p) => p,
        None => {
            return AstNode::Empty;
        },
    };
    let a_dt = parameter_a.data_type;
    let b_dt = parameter_b.data_type;
    let body_expr = invoke1(
        gp_result.data_type,
        Expression { size: 1, content: ExpressionContent::Variable(a_dt, parameter_a.name) },
        OperationKind::GeometricProduct,
        a_dt,
        b_dt,
        Expression { size: 1, content: ExpressionContent::Variable(b_dt, parameter_b.name) },
    );
    let mut parameters: Vec<Parameter> = Vec::new();
    parameters.push(*parameter_a);
    parameters.push(*parameter_b);
    AstNode::TraitImplementation {
        kind: OperationKind::Scale,
        result: Parameter { name: VarName::SelfName, data_type: gp_result.data_type },
        parameters,
        body: vec![AstNode::ReturnStatement { expression: Box::new(body_expr) }],
    }
}

/// Signum: the element scaled by the reciprocal of its magnitude.
pub fn derive_signum(
    geometric_product: &AstNode,
    magnitude: &AstNode,
    parameter_a: &Parameter,
) -> (r: AstNode)
    ensures
        (geometric_product matches AstNode::TraitImplementation { .. } && magnitude
            matches AstNode::TraitImplementation { .. }) ==> (r
            matches AstNode::TraitImplementation { kind, result, parameters, body } && kind
            == OperationKind::Signum && result.data_type == geometric_product->result.data_type
            && parameters@.len() == 1 && parameters@[0] == *parameter_a && signum_body_ok(
            body@,
            parameter_a.data_type,
            parameter_a.name,
            geometric_product->result.data_type,
            magnitude->result.data_type,
        )),
        !(geometric_product matches AstNode::TraitImplementation { .. } && magnitude
            matches AstNode::TraitImplementation { .. }) ==> r is Empty,
{
    let gp_result = match node_result(geometric_product) {
        Some(p) => p,
        None => {
            return AstNode::Empty;
        },
    };
    let mag_result = match node_result(magnitude) {
        Some(p) => p,
        None => {
            return AstNode::Empty;
        },
    };
    let a_dt = parameter_a.data_type;
    let mag = invoke0(
        mag_result.data_type,
        Expression { size: 1, content: ExpressionContent::Variable(a_dt, parameter_a.name) },
        OperationKind::Magnitude,
        a_dt,
    );
    let recip = Expression {
        size: 1,
        content: ExpressionContent::Divide(Box::new(scalar_const(1)), Box::new(mag)),
    };
    let body_expr = invoke1(
        gp_result.data_type,
        Expression { size: 1, content: ExpressionContent::Variable(a_dt, parameter_a.name) },
        OperationKind::GeometricProduct,
        a_dt,
        mag_result.data_type,
        recip,
    );
    let mut parameters: Vec<Parameter> = Vec::new();
    parameters.push(*parameter_a);
    AstNode::TraitImplementation {
        kind: OperationKind::Signum,
        result: Parameter { name: VarName::SelfName, data_type: gp_result.data_type },
        parameters,
        body: vec![AstNode::ReturnStatement { expression: Box::new(body_expr) }],
    }
}

/// Inverse: the reverse scaled by the reciprocal of the squared magnitude.
pub fn derive_inverse(
    geometric_product: &AstNode,
    squared_magnitude: &AstNode,
    reversal: &AstNode,
    parameter_a: &Parameter,
) -> (r: AstNode)
    ensures
        (geometric_product matches AstNode::TraitImplementation { .. } && squared_magnitude
            matches AstNode::TraitImplementation { .. } && reversal
            matches AstNode::TraitImplementation { .. }) ==> (r
            matches AstNode::TraitImplementation { kind, result, parameters, body } && kind
            == OperationKind::Inverse && result.data_type == geometric_product->result.data_type
            && parameters@.len() == 1 && parameters@[0] == *parameter_a && inverse_body_ok(
            body@,
            parameter_a.data_type,
            parameter_a.name,
            geometric_product->result.data_type,
            squared_magnitude->result.data_type,
            reversal->result.data_type,
        )),
        !(geometric_product matches AstNode::TraitImplementation { .. } && squared_magnitude
            matches AstNode::TraitImplementation { .. } && reversal
            matches AstNode::TraitImplementation { .. }) ==> r is Empty,
{
    let gp_result = match node_result(geometric_product) {
        Some(p) => p,
        None => {
            return AstNode::Empty;
        },
    };
    let sq_result = match node_result(squared_magnitude) {
        Some(p) => p,
        None => {
            return AstNode::Empty;
        },
    };
    let rev_result = match node_result(reversal) {
        Some(p) => p,
        None => {
            return AstNode::Empty;
        },
    };
    let a_dt = parameter_a.data_type;
    let reversed = invoke0(
        rev_result.data_type,
        Expression { size: 1, content: ExpressionContent::Variable(a_dt, parameter_a.name) },
        OperationKind::Reversal,
        a_dt,
    );
    let sqmag = invoke0(
        sq_result.data_type,
        Expression { size: 1, content: ExpressionContent::Variable(a_dt, parameter_a.name) },
        OperationKind::SquaredMagnitude,
        a_dt,
    );
    let recip = Expression {
        size: 1,
        content: ExpressionContent::Divide(Box::new(scalar_const(1)), Box::new(sqmag)),
    };
    let body_expr = invoke1(
        gp_result.data_type,
        reversed,
        OperationKind::GeometricProduct,
        a_dt,
        sq_result.data_type,
        recip,
    );
    let mut parameters: Vec<Parameter> = Vec::new();
    parameters.push(*parameter_a);
    AstNode::TraitImplementation {
        kind: OperationKind::Inverse,
        result: Parameter { name: VarName::SelfName, data_type: gp_result.data_type },
        parameters,
        body: vec![AstNode::ReturnStatement { expression: Box::new(body_expr) }],
    }
}

/// Integer power: repeated multiplication, inverting first for a negative
/// exponent.
pub fn derive_power_of_integer(
    geometric_product: &AstNode,
    constant_one: &AstNode,
    inverse: &AstNode,
    parameter_a: &Parameter,
    parameter_exponent: &Parameter,
) -> (r: AstNode)
    requires
        parameter_a.data_type matches DataType::MultiVector(_),
    ensures
        (geometric_product matches AstNode::TraitImplementation { .. } && constant_one
            matches AstNode::TraitImplementation { .. } && inverse
            matches AstNode::TraitImplementation { .. }) ==> (r
            matches AstNode::TraitImplementation { kind, result, parameters, body } && kind
            == OperationKind::Powi && result.data_type == parameter_a.data_type
            && parameters@.len() == 2 && parameters@[0] == *parameter_a && parameters@[1]
            == *parameter_exponent && powi_body_ok(
            body@,
            parameter_a.data_type->MultiVector_0,
            parameter_a.data_type,
            parameter_a.name,
            parameter_exponent.name,
        )),
        !(geometric_product matches AstNode::TraitImplementation { .. } && constant_one
            matches AstNode::TraitImplementation { .. } && inverse
            matches AstNode::TraitImplementation { .. }) ==> r is Empty,
{
    if node_result(geometric_product).is_none() || node_result(constant_one).is_none()
        || node_result(inverse).is_none() {
        return AstNode::Empty;
    }
    let a_ix = parameter_a.multi_vector_class();
    let a_dt = parameter_a.data_type;
    let exp_var = Expression {
        size: 1,
        content: ExpressionContent::Variable(DataType::Integer, parameter_exponent.name),
    };
    let exp_var2 = Expression {
        size: 1,
        content: ExpressionContent::Variable(DataType::Integer, parameter_exponent.name),
    };
    let exp_var3 = Expression {
        size: 1,
        content: ExpressionContent::Variable(DataType::Integer, parameter_exponent.name),
    };
    let exp_var4 = Expression {
        size: 1,
        content: ExpressionContent::Variable(DataType::Integer, parameter_exponent.name),
    };
    let negative = Expression {
        size: 1,
        content: ExpressionContent::LessThan(Box::new(exp_var), Box::new(scalar_const(0))),
    };
    let negative2 = Expression {
        size: 1,
        content: ExpressionContent::LessThan(Box::new(exp_var2), Box::new(scalar_const(0))),
    };
    let inverted = invoke0(a_dt, var_expr(a_ix, parameter_a.name), OperationKind::Inverse, a_dt);
    let base_init = Expression {
        size: 1,
        content: ExpressionContent::Select(
            Box::new(negative),
            Box::new(inverted),
            Box::new(var_expr(a_ix, parameter_a.name)),
        ),
    };
    let negated = Expression {
        size: 1,
        content: ExpressionContent::Subtract(Box::new(scalar_const(0)), Box::new(exp_var3)),
    };
    let limit_init = Expression {
        size: 1,
        content: ExpressionContent::Select(
            Box::new(negative2),
            Box::new(negated),
            Box::new(exp_var4),
        ),
    };
    let one_init = Expression {
        size: 1,
        content: ExpressionContent::InvokeClassMethod(a_ix, OperationKind::One, Vec::new()),
    };
    let counter_var = Expression {
        size: 1,
        content: ExpressionContent::Variable(DataType::Integer, VarName::Counter),
    };
    let counter_var2 = Expression {
        size: 1,
        content: ExpressionContent::Variable(DataType::Integer, VarName::Counter),
    };
    let limit_var = Expression {
        size: 1,
        content: ExpressionContent::Variable(DataType::Integer, VarName::Limit),
    };
    let accum_var = Expression {
        size: 1,
        content: ExpressionContent::Variable(a_dt, VarName::Accum),
    };
    let base_var = Expression {
        size: 1,
        content: ExpressionContent::Variable(a_dt, VarName::Base),
    };
    let step = invoke1(
        a_dt,
        accum_var,
        OperationKind::GeometricProduct,
        a_dt,
        a_dt,
        base_var,
    );
    let bump = Expression {
        size: 1,
        content: ExpressionContent::Add(Box::new(counter_var2), Box::new(scalar_const(1))),
    };
    let cond = Expression {
        size: 1,
        content: ExpressionContent::LessThan(Box::new(counter_var), Box::new(limit_var)),
    };
    let mut loop_body: Vec<AstNode> = Vec::new();
    loop_body.push(
        AstNode::VariableAssignment {
            name: VarName::Accum,
            data_type: None,
            expression: Box::new(step),
        },
    );
    loop_body.push(
        AstNode::VariableAssignment {
            name: VarName::Counter,
            data_type: None,
            expression: Box::new(bump),
        },
    );
    let mut body: Vec<AstNode> = Vec::new();
    body.push(
        AstNode::VariableAssignment {
            name: VarName::Base,
            data_type: Some(a_dt),
            expression: Box::new(base_init),
        },
    );
    body.push(
        AstNode::VariableAssignment {
            name: VarName::Accum,
            data_type: Some(a_dt),
            expression: Box::new(one_init),
        },
    );
    body.push(
        AstNode::VariableAssignment {
            name: VarName::Limit,
            data_type: Some(DataType::Integer),
            expression: Box::new(limit_init),
        },
    );
    body.push(
        AstNode::VariableAssignment {
            name: VarName::Counter,
            data_type: Some(DataType::Integer),
            expression: Box::new(scalar_const(0)),
        },
    );
    body.push(AstNode::WhileLoopBlock { condition: Box::new(cond), body: loop_body });
    body.push(
        AstNode::ReturnStatement {
            expression: Box::new(
                Expression {
                    size: 1,
                    content: ExpressionContent::Variable(a_dt, VarName::Accum),
                },
            ),
        },
    );
    let mut parameters: Vec<Parameter> = Vec::new();
    parameters.push(*parameter_a);
    parameters.push(*parameter_exponent);
    AstNode::TraitImplementation {
        kind: OperationKind::Powi,
        result: Parameter { name: VarName::SelfName, data_type: a_dt },
        parameters,
        body,
    }
}

/// Geometric quotient: the product with the right operand's inverse.
pub fn derive_division(
    geometric_product: &AstNode,
    inverse: &AstNode,
    parameter_a: &Parameter,
    parameter_b: &Parameter,
) -> (r: AstNode)
    ensures
        (geometric_product matches AstNode::TraitImplementation { .. } && inverse
            matches AstNode::TraitImplementation { .. }) ==> (r
            matches AstNode::TraitImplementation { kind, result, parameters, body } && kind
            == OperationKind::GeometricQuotient && result.data_type
            == geometric_product->result.data_type && parameters@.len() == 2 && parameters@[0]
            == *parameter_a && parameters@[1] == *parameter_b && quotient_body_ok(
            body@,
            parameter_a.data_type,
            parameter_a.name,
            parameter_b.data_type,
            parameter_b.name,
            geometric_product->result.data_type,
            inverse->result.data_type,
        )),
        !(geometric_product matches AstNode::TraitImplementation { .. } && inverse
            matches AstNode::TraitImplementation { .. }) ==> r is Empty,
{
    let gp_result = match node_result(geometric_product) {
        Some(p) => p,
        None => {
            return AstNode::Empty;
        },
    };
    let inv_result = match node_result(inverse) {
        Some(p) => p,
        None => {
            return AstNode::Empty;
        },
    };
    let a_dt = parameter_a.data_type;
    let b_dt = parameter_b.data_type;
    let inverted = invoke0(
        inv_result.data_type,
        Expression { size: 1, content: ExpressionContent::Variable(b_dt, parameter_b.name) },
        OperationKind::Inverse,
        b_dt,
    );
    let body_expr = invoke1(
        gp_result.data_type,
        Expression { size: 1, content: ExpressionContent::Variable(a_dt, parameter_a.name) },
        OperationKind::GeometricProduct,
        a_dt,
        inv_result.data_type,
        inverted,
    );
    let mut parameters: Vec<Parameter> = Vec::new();
    parameters.push(*parameter_a);
    parameters.push(*parameter_b);
    AstNode::TraitImplementation {
        kind: OperationKind::GeometricQuotient,
        result: Parameter { name: VarName::SelfName, data_type: gp_result.data_type },
        parameters,
        body: vec![AstNode::ReturnStatement { expression: Box::new(body_expr) }],
    }
}

/// The sandwich product a b Reverse(a): the action of a versor on an
/// element, converted back to the operand's class when a conversion exists.
pub fn derive_sandwich_product(
    geometric_product: &AstNode,
    geometric_product_2: &AstNode,
    reversal: &AstNode,
    conversion: Option<&AstNode>,
    parameter_a: &Parameter,
    parameter_b: &Parameter,
) -> (r: AstNode)
    requires
        parameter_b.data_type matches DataType::MultiVector(_),
    ensures
        ({
            let conv_applies = conversion matches Some(c) && c matches AstNode::TraitImplementation {
                ..
            };
            (geometric_product matches AstNode::TraitImplementation { .. } && geometric_product_2
                matches AstNode::TraitImplementation { .. } && reversal
                matches AstNode::TraitImplementation { .. }) ==> (r
                matches AstNode::TraitImplementation { kind, result, parameters, body } && kind
                == OperationKind::Transformation && parameters@.len() == 2 && parameters@[0]
                == *parameter_a && parameters@[1] == *parameter_b && result.data_type == (
            if conv_applies {
                parameter_b.data_type
            } else {
                geometric_product_2->result.data_type
            }) && transformation_body_ok(
                body@,
                parameter_a.data_type,
                parameter_a.name,
                parameter_b.data_type,
                parameter_b.name,
                geometric_product->result.data_type,
                geometric_product_2->result.data_type,
                reversal->result.data_type,
                conv_applies,
                parameter_b.data_type->MultiVector_0,
            ))
        }),
        !(geometric_product matches AstNode::TraitImplementation { .. } && geometric_product_2
            matches AstNode::TraitImplementation { .. } && reversal
            matches AstNode::TraitImplementation { .. }) ==> r is Empty,
{
    let gp_result = match node_result(geometric_product) {
        Some(p) => p,
        None => {
            return AstNode::Empty;
        },
    };
    let gp2_result = match node_result(geometric_product_2) {
        Some(p) => p,
        None => {
            return AstNode::Empty;
        },
    };
    let rev_result = match node_result(reversal) {
        Some(p) => p,
        None => {
            return AstNode::Empty;
        },
    };
    let a_dt = parameter_a.data_type;
    let b_dt = parameter_b.data_type;
    let b_ix = parameter_b.multi_vector_class();
    let inner = invoke1(
        gp_result.data_type,
        Expression { size: 1, content: ExpressionContent::Variable(a_dt, parameter_a.name) },
        OperationKind::GeometricProduct,
        a_dt,
        b_dt,
        Expression { size: 1, content: ExpressionContent::Variable(b_dt, parameter_b.name) },
    );
    let reversed = invoke0(
        rev_result.data_type,
        Expression { size: 1, content: ExpressionContent::Variable(a_dt, parameter_a.name) },
        OperationKind::Reversal,
        a_dt,
    );
    let second = invoke1(
        gp2_result.data_type,
        inner,
        OperationKind::GeometricProduct,
        gp_result.data_type,
        rev_result.data_type,
        reversed,
    );
    let gp2_class = match gp2_result.data_type {
        DataType::MultiVector(ix) => ix,
        _ => 0,
    };
    let converted: Expression;
    let result_dt: DataType;
    match conversion {
        Some(conv) => {
            if node_result(conv).is_some() {
                converted = Expression {
                    size: 1,
                    content: ExpressionContent::Conversion(gp2_class, b_ix, Box::new(second)),
                };
                result_dt = b_dt;
            } else {
                converted = second;
                result_dt = gp2_result.data_type;
            }
        },
        None => {
            converted = second;
            result_dt = gp2_result.data_type;
        },
    }
    let mut parameters: Vec<Parameter> = Vec::new();
    parameters.push(*parameter_a);
    parameters.push(*parameter_b);
    AstNode::TraitImplementation {
        kind: OperationKind::Transformation,
        result: Parameter { name: VarName::SelfName, data_type: result_dt },
        parameters,
        body: vec![AstNode::ReturnStatement { expression: Box::new(converted) }],
    }
}

impl MultiVectorClass {
    /// One bilinear product between two classes: the table's terms are
    /// restricted to factors present in the two classes (matched at their
    /// first occurrence), the result class is found in the registry by the
    /// canonical signature of the surviving product indices, and each result
    /// slot is a sum of coefficient-scaled lane products.  The sentinel is
    /// produced exactly when a surviving coefficient chain leaves the scalar
    /// range, no registered class matches the signature, or a slot
    /// coefficient leaves the range when scaled to the declared result blade.
    pub fn product(
        kind: OperationKind,
        table: &Product,
        parameter_a: &Parameter,
        parameter_b: &Parameter,
        registry: &MultiVectorClassRegistry,
    ) -> (r: AstNode)
        requires
            registry.wf(),
            parameter_a.data_type matches DataType::MultiVector(ix) && ix
                < registry.classes@.len(),
            parameter_b.data_type matches DataType::MultiVector(ix) && ix
                < registry.classes@.len(),
        ensures
            ({
                let fa = registry.classes@[(parameter_a.data_type->MultiVector_0) as int].flat_spec();
                let fb = registry.classes@[(parameter_b.data_type->MultiVector_0) as int].flat_spec();
                let tb = table.terms@;
                &&& (r is Empty <==> (product_map_overflow(tb, fa, fb) || product_lookup_fails(
                    tb,
                    fa,
                    fb,
                    registry,
                ) || (exists|sigr: Seq<u16>|
                    is_canon_sig(sigr, surv_indices(tb, fa, fb)) && (
                    #[trigger] registry.lookup_spec(sigr) matches Some(rix)
                        && product_assembly_overflow(
                        registry.classes@[rix as int],
                        contribs_spec(tb, fa, fb),
                    )))))
                &&& !(r is Empty) ==> (r matches AstNode::TraitImplementation {
                    kind: k,
                    result,
                    parameters,
                    body,
                } && k == kind && parameters@.len() == 2 && parameters@[0] == *parameter_a
                    && parameters@[1] == *parameter_b && (result.data_type
                    matches DataType::MultiVector(rx) && rx < registry.classes@.len() && (exists|
                        sigr: Seq<u16>,
                    |
                        is_canon_sig(sigr, surv_indices(tb, fa, fb))
                            && #[trigger] registry.lookup_spec(sigr) == Option::Some(rx))
                    && product_body_shape(body@, rx, registry.classes@[rx as int])))
            }),
    {
        let a_ix = parameter_a.multi_vector_class();
        let b_ix = parameter_b.multi_vector_class();
        let class_a = &registry.classes[a_ix];
        let class_b = &registry.classes[b_ix];
        let flat_a = class_a.flat_basis();
        let flat_b = class_b.flat_basis();
        let _flat_a_len = flat_a.len();
        let _flat_b_len = flat_b.len();
        let ghost tb = table.terms@;
        let ghost fa = flat_a@;
        let ghost fb = flat_b@;
        proof {
            assert(flat_a@.len() <= usize::MAX);
            assert(flat_b@.len() <= usize::MAX);
            assert(tb.skip(0) =~= tb);
        }
        // Restrict the table to factors present in the two classes.
        let mut contributions: Vec<(u16, i64, usize, usize)> = Vec::new();
        let mut t: usize = 0;
        while t < table.terms.len()
            invariant
                tb == table.terms@,
                fa == flat_a@,
                fb == flat_b@,
                a_ix < registry.classes@.len(),
                b_ix < registry.classes@.len(),
                parameter_a.data_type == DataType::MultiVector(a_ix),
                parameter_b.data_type == DataType::MultiVector(b_ix),
                fa == registry.classes@[a_ix as int].flat_spec(),
                fb == registry.classes@[b_ix as int].flat_spec(),
                t <= tb.len(),
                forall|q: int|
                    0 <= q < contributions@.len() ==> (#[trigger] contributions@[q]).2
                        < flat_a@.len() && contributions@[q].3 < flat_b@.len(),
                lift_contribs(contributions@) + contribs_spec(tb.skip(t as int), fa, fb)
                    == contribs_spec(tb, fa, fb),
                forall|k2: int|
                    0 <= k2 < t ==> (term_applies(#[trigger] tb[k2], fa, fb) ==> chain_fits(
                        tb[k2],
                        fa[first_pos(fa, tb[k2].factor_a.index)->Some_0],
                        fb[first_pos(fb, tb[k2].factor_b.index)->Some_0],
                    )),
            decreases tb.len() - t,
        {
            let term = table.terms[t];
            proof {
                assert(tb.skip(t as int)[0] == term);
                assert(tb.skip(t as int).skip(1) =~= tb.skip(t as int + 1));
            }
            let pos_a = index_of_blade(&flat_a, term.factor_a.index);
            let pos_b = index_of_blade(&flat_b, term.factor_b.index);
            match (pos_a, pos_b) {
                (Some(i), Some(j)) => {
                    proof {
                        assert(term_applies(term, fa, fb));
                    }
                    let ghost spec_fa_blade = fa[first_pos(fa, term.factor_a.index)->Some_0];
                    let ghost spec_fb_blade = fb[first_pos(fb, term.factor_b.index)->Some_0];
                    proof {
                        assert(spec_fa_blade == flat_a@[i as int]);
                        assert(spec_fb_blade == flat_b@[j as int]);
                    }
                    // The table's factors are canonical blades; the class's
                    // declared blades are signed multiples of them.
                    let c1 = match mul_scalars(term.product.scalar, term.factor_a.scalar) {
                        Some(v) => v,
                        None => {
                            proof {
                                assert(!chain_fits(term, spec_fa_blade, spec_fb_blade));
                                assert(product_map_overflow(tb, fa, fb)) by {
                                    assert(term_applies(tb[t as int], fa, fb));
                                }
                            }
                            return AstNode::Empty;
                        },
                    };
                    let c2 = match mul_scalars(c1, flat_a[i].scalar) {
                        Some(v) => v,
                        None => {
                            proof {
                                assert(!chain_fits(term, spec_fa_blade, spec_fb_blade));
                                assert(product_map_overflow(tb, fa, fb)) by {
                                    assert(term_applies(tb[t as int], fa, fb));
                                }
                            }
                            return AstNode::Empty;
                        },
                    };
                    let c3 = match mul_scalars(c2, term.factor_b.scalar) {
                        Some(v) => v,
                        None => {
                            proof {
                                assert(!chain_fits(term, spec_fa_blade, spec_fb_blade));
                                assert(product_map_overflow(tb, fa, fb)) by {
                                    assert(term_applies(tb[t as int], fa, fb));
                                }
                            }
                            return AstNode::Empty;
                        },
                    };
                    let c4 = match mul_scalars(c3, flat_b[j].scalar) {
                        Some(v) => v,
                        None => {
                            proof {
                                assert(!chain_fits(term, spec_fa_blade, spec_fb_blade));
                                assert(product_map_overflow(tb, fa, fb)) by {
                                    assert(term_applies(tb[t as int], fa, fb));
                                }
                            }
                            return AstNode::Empty;
                        },
                    };
                    let ghost old_contribs = contributions@;
                    contributions.push((term.product.index, c4, i, j));
                    proof {
                        assert(c4 as int == chain_value(term, spec_fa_blade, spec_fb_blade));
                        assert(chain_fits(term, spec_fa_blade, spec_fb_blade));
                        assert(contribs_spec(tb.skip(t as int), fa, fb) == seq![
                            (
                                term.product.index,
                                chain_value(term, spec_fa_blade, spec_fb_blade),
                                first_pos(fa, term.factor_a.index)->Some_0,
                                first_pos(fb, term.factor_b.index)->Some_0,
                            ),
                        ] + contribs_spec(tb.skip(t as int + 1), fa, fb));
                        assert(lift_contribs(contributions@) =~= lift_contribs(old_contribs).push(
                            (term.product.index, c4 as int, i as int, j as int),
                        ));
                        assert(lift_contribs(contributions@) + contribs_spec(
                            tb.skip(t as int + 1),
                            fa,
                            fb,
                        ) =~= lift_contribs(old_contribs) + contribs_spec(tb.skip(t as int), fa, fb));
                    }
                },
                _ => {
                    proof {
                        assert(!term_applies(term, fa, fb));
                        assert(contribs_spec(tb.skip(t as int), fa, fb) =~= contribs_spec(
                            tb.skip(t as int + 1),
                            fa,
                            fb,
                        ));
                    }
                },
            }
            t = t + 1;
        }
        proof {
            assert(contribs_spec(tb.skip(tb.len() as int), fa, fb) =~= Seq::<
                (u16, int, int, int),
            >::empty());
            assert(lift_contribs(contributions@) =~= contribs_spec(tb, fa, fb));
            assert(!product_map_overflow(tb, fa, fb));
        }
        // The result class, by the canonical signature of the product indices.
        let mut idxs: Vec<u16> = Vec::new();
        let mut k: usize = 0;
        while k < contributions.len()
            invariant
                k <= contributions@.len(),
                idxs@.len() == k,
                forall|m: int| 0 <= m < k ==> #[trigger] idxs@[m] == contributions@[m].0,
                forall|q: int|
                    0 <= q < contributions@.len() ==> (#[trigger] contributions@[q]).2
                        < flat_a@.len() && contributions@[q].3 < flat_b@.len(),
            decreases contributions@.len() - k,
        {
            idxs.push(contributions[k].0);
            k = k + 1;
        }
        proof {
            assert(surv_indices(tb, fa, fb) =~= idxs@) by {
                assert(lift_contribs(contributions@) == contribs_spec(tb, fa, fb));
                assert(surv_indices(tb, fa, fb).len() == idxs@.len());
                assert forall|m: int| 0 <= m < idxs@.len() implies surv_indices(tb, fa, fb)[m]
                    == idxs@[m] by {
                    assert(surv_indices(tb, fa, fb)[m] == contribs_spec(tb, fa, fb)[m].0);
                    assert(lift_contribs(contributions@)[m].0 == contributions@[m].0);
                }
            }
        }
        let signature = sorted_unique_indices(&idxs);
        proof {
            assert(is_canon_sig(signature@, surv_indices(tb, fa, fb)));
        }
        let r_ix = match registry.index_of(&signature) {
            Some(ix) => ix,
            None => {
                proof {
                    assert forall|sigr: Seq<u16>|
                        is_canon_sig(sigr, surv_indices(tb, fa, fb)) implies #[trigger] registry.lookup_spec(
                        sigr,
                    ) is None by {
                        lemma_canon_sig_unique(sigr, signature@, surv_indices(tb, fa, fb));
                    }
                    assert(product_lookup_fails(tb, fa, fb, registry));
                }
                return AstNode::Empty;
            },
        };
        let class_r = &registry.classes[r_ix];
        let ghost rgroups = class_r.grouped_basis@.map_values(|q: Vec<BasisElement>| q@);
        // One argument per result slot: the sum of the contributing scaled
        // lane products.
        let mut args: Vec<(DataType, Expression)> = Vec::new();
        let mut g: usize = 0;
        proof {
            assert(rgroups.take(0) =~= Seq::<Seq<BasisElement>>::empty());
        }
        while g < class_r.grouped_basis.len()
            invariant
                registry.wf(),
                a_ix < registry.classes@.len(),
                b_ix < registry.classes@.len(),
                r_ix < registry.classes@.len(),
                class_r == &registry.classes@[r_ix as int],
                class_a == &registry.classes@[a_ix as int],
                class_b == &registry.classes@[b_ix as int],
                rgroups == class_r.grouped_basis@.map_values(|q: Vec<BasisElement>| q@),
                flat_a@ == class_a.flat_spec(),
                flat_b@ == class_b.flat_spec(),
                flat_a@.len() <= usize::MAX,
                flat_b@.len() <= usize::MAX,
                fa == flat_a@,
                fb == flat_b@,
                tb == table.terms@,
                lift_contribs(contributions@) == contribs_spec(tb, fa, fb),
                is_canon_sig(signature@, surv_indices(tb, fa, fb)),
                registry.lookup_spec(signature@) == Option::Some(r_ix),
                parameter_a.data_type == DataType::MultiVector(a_ix),
                parameter_b.data_type == DataType::MultiVector(b_ix),
                g <= rgroups.len(),
                args@.len() == crate::registry::flat_of(rgroups.take(g as int)).len(),
                forall|q: int|
                    0 <= q < args@.len() ==> ((#[trigger] args@[q]).0 == DataType::SimdVector(1)
                        && args@[q].1.size == 1),
                forall|q: int|
                    0 <= q < contributions@.len() ==> (#[trigger] contributions@[q]).2
                        < flat_a@.len() && contributions@[q].3 < flat_b@.len(),
                forall|g2: int, l2: int, q2: int|
                    0 <= g2 < g && 0 <= l2 < rgroups[g2].len() && 0 <= q2 < contributions@.len()
                        && (#[trigger] contributions@[q2]).0 == (#[trigger] rgroups[g2][l2]).index
                        ==> crate::algebra::i64_fits(
                        (contributions@[q2].1 as int) * (rgroups[g2][l2].scalar as int),
                    ),
            decreases rgroups.len() - g,
        {
            let group_len = class_r.grouped_basis[g].len();
            proof {
                assert(rgroups[g as int] == class_r.grouped_basis@[g as int]@);
                crate::registry::lemma_flat_of_split(rgroups.take(g as int + 1), g as int);
                assert(rgroups.take(g as int + 1).take(g as int) =~= rgroups.take(g as int));
                assert(rgroups.take(g as int + 1).skip(g as int) =~= seq![rgroups[g as int]]);
                let single = seq![rgroups[g as int]];
                assert(single.skip(1) =~= Seq::<Seq<BasisElement>>::empty());
                assert(crate::registry::flat_of(single) == single[0] + crate::registry::flat_of(
                    single.skip(1),
                ));
                assert(crate::registry::flat_of(single) =~= rgroups[g as int]);
                assert(crate::registry::flat_of(rgroups.take(g as int + 1)).len() == args@.len()
                    + group_len);
            }
            let mut l: usize = 0;
            while l < group_len
                invariant
                    registry.wf(),
                    a_ix < registry.classes@.len(),
                    b_ix < registry.classes@.len(),
                    r_ix < registry.classes@.len(),
                    class_r == &registry.classes@[r_ix as int],
                    class_a == &registry.classes@[a_ix as int],
                    class_b == &registry.classes@[b_ix as int],
                    rgroups == class_r.grouped_basis@.map_values(|q: Vec<BasisElement>| q@),
                    flat_a@ == class_a.flat_spec(),
                    flat_b@ == class_b.flat_spec(),
                    flat_a@.len() <= usize::MAX,
                    flat_b@.len() <= usize::MAX,
                    fa == flat_a@,
                    fb == flat_b@,
                    tb == table.terms@,
                    lift_contribs(contributions@) == contribs_spec(tb, fa, fb),
                    is_canon_sig(signature@, surv_indices(tb, fa, fb)),
                    registry.lookup_spec(signature@) == Option::Some(r_ix),
                    parameter_a.data_type == DataType::MultiVector(a_ix),
                    parameter_b.data_type == DataType::MultiVector(b_ix),
                    g < rgroups.len(),
                    group_len == rgroups[g as int].len(),
                    l <= group_len,
                    args@.len() == crate::registry::flat_of(rgroups.take(g as int)).len() + l,
                    forall|q: int|
                        0 <= q < args@.len() ==> ((#[trigger] args@[q]).0 == DataType::SimdVector(
                            1,
                        ) && args@[q].1.size == 1),
                    forall|q: int|
                        0 <= q < contributions@.len() ==> (#[trigger] contributions@[q]).2
                            < flat_a@.len() && contributions@[q].3 < flat_b@.len(),
                    forall|g2: int, l2: int, q2: int|
                        0 <= g2 < g && 0 <= l2 < rgroups[g2].len() && 0 <= q2
                            < contributions@.len() && (#[trigger] contributions@[q2]).0 == (
                        #[trigger] rgroups[g2][l2]).index ==> crate::algebra::i64_fits(
                            (contributions@[q2].1 as int) * (rgroups[g2][l2].scalar as int),
                        ),
                    forall|l2: int, q2: int|
                        0 <= l2 < l && 0 <= q2 < contributions@.len() && (
                        #[trigger] contributions@[q2]).0 == (
                        #[trigger] rgroups[g as int][l2]).index ==> crate::algebra::i64_fits(
                            (contributions@[q2].1 as int) * (rgroups[g as int][l2].scalar as int),
                        ),
                decreases group_len - l,
            {
                let rb = class_r.grouped_basis[g][l];
                proof {
                    assert(rb == rgroups[g as int][l as int]);
                }
                let mut acc: Option<Expression> = None;
                let mut q: usize = 0;
                while q < contributions.len()
                    invariant
                        a_ix < registry.classes@.len(),
                        b_ix < registry.classes@.len(),
                        r_ix < registry.classes@.len(),
                        class_a == &registry.classes@[a_ix as int],
                        class_b == &registry.classes@[b_ix as int],
                        class_r == &registry.classes@[r_ix as int],
                        rgroups == class_r.grouped_basis@.map_values(|q2: Vec<BasisElement>| q2@),
                        flat_a@ == class_a.flat_spec(),
                        flat_b@ == class_b.flat_spec(),
                        flat_a@.len() <= usize::MAX,
                        flat_b@.len() <= usize::MAX,
                        fa == flat_a@,
                        fb == flat_b@,
                        tb == table.terms@,
                        lift_contribs(contributions@) == contribs_spec(tb, fa, fb),
                        is_canon_sig(signature@, surv_indices(tb, fa, fb)),
                        registry.lookup_spec(signature@) == Option::Some(r_ix),
                        parameter_a.data_type == DataType::MultiVector(a_ix),
                        parameter_b.data_type == DataType::MultiVector(b_ix),
                        g < rgroups.len(),
                        l < rgroups[g as int].len(),
                        rb == rgroups[g as int][l as int],
                        q <= contributions@.len(),
                        match acc {
                            Some(e) => e.size == 1,
                            None => true,
                        },
                        forall|q2: int|
                            0 <= q2 < contributions@.len() ==> (#[trigger] contributions@[q2]).2
                                < flat_a@.len() && contributions@[q2].3 < flat_b@.len(),
                        forall|q2: int|
                            0 <= q2 < q && (#[trigger] contributions@[q2]).0 == rb.index
                                ==> crate::algebra::i64_fits(
                                (contributions@[q2].1 as int) * (rb.scalar as int),
                            ),
                    decreases contributions@.len() - q,
                {
                    let entry = contributions[q];
                    if entry.0 == rb.index {
                        let c = match mul_scalars(entry.1, rb.scalar) {
                            Some(v) => v,
                            None => {
                                proof {
                                    assert(lift_contribs(contributions@)[q as int].1
                                        == entry.1 as int);
                                    assert(product_assembly_overflow(
                                        registry.classes@[r_ix as int],
                                        contribs_spec(tb, fa, fb),
                                    )) by {
                                        assert(0 <= g < class_r.grouped_basis@.len());
                                        assert(contribs_spec(tb, fa, fb)[q as int].0
                                            == class_r.grouped_basis@[g as int]@[l as int].index);
                                        assert(!crate::algebra::i64_fits(
                                            contribs_spec(tb, fa, fb)[q as int].1 * (
                                            class_r.grouped_basis@[g as int]@[
                                                l as int].scalar as int),
                                        ));
                                    }
                                }
                                return AstNode::Empty;
                            },
                        };
                        let la = locate_lane(class_a, entry.2);
                        let lb = locate_lane(class_b, entry.3);
                        let lane_a = lane_expr(
                            a_ix,
                            parameter_a.name,
                            la.0,
                            la.1,
                            registry.classes[a_ix].grouped_basis[la.0].len(),
                        );
                        let lane_b = lane_expr(
                            b_ix,
                            parameter_b.name,
                            lb.0,
                            lb.1,
                            registry.classes[b_ix].grouped_basis[lb.0].len(),
                        );
                        let base = Expression {
                            size: 1,
                            content: ExpressionContent::Multiply(
                                Box::new(lane_a),
                                Box::new(lane_b),
                            ),
                        };
                        let scaled = if c == 1 {
                            base
                        } else {
                            Expression {
                                size: 1,
                                content: ExpressionContent::Multiply(
                                    Box::new(base),
                                    Box::new(scalar_const(c)),
                                ),
                            }
                        };
                        acc = Some(
                            match acc {
                                Some(prev) => Expression {
                                    size: 1,
                                    content: ExpressionContent::Add(
                                        Box::new(prev),
                                        Box::new(scaled),
                                    ),
                                },
                                None => scaled,
                            },
                        );
                    }
                    q = q + 1;
                }
                let slot_expr = match acc {
                    Some(e) => e,
                    None => scalar_const(0),
                };
                args.push((DataType::SimdVector(1), slot_expr));
                l = l + 1;
            }
            g = g + 1;
        }
        proof {
            assert(rgroups.take(rgroups.len() as int) =~= rgroups);
            assert(args@.len() == class_r.flat_spec().len());
            // No assembly overflow anywhere, for the unique matching class.
            assert forall|sigr: Seq<u16>|
                is_canon_sig(sigr, surv_indices(tb, fa, fb)) implies !(
            #[trigger] registry.lookup_spec(sigr) matches Some(rix)
                && product_assembly_overflow(
                registry.classes@[rix as int],
                contribs_spec(tb, fa, fb),
            )) by {
                lemma_canon_sig_unique(sigr, signature@, surv_indices(tb, fa, fb));
                assert(registry.lookup_spec(sigr) == Option::Some(r_ix));
                if product_assembly_overflow(
                    registry.classes@[r_ix as int],
                    contribs_spec(tb, fa, fb),
                ) {
                    let (g2, l2, q2) = choose|g2: int, l2: int, q2: int|
                        0 <= g2 < registry.classes@[r_ix as int].grouped_basis@.len() && 0 <= l2
                            < registry.classes@[r_ix as int].grouped_basis@[g2]@.len() && 0 <= q2
                            < contribs_spec(tb, fa, fb).len() && (#[trigger] contribs_spec(
                            tb,
                            fa,
                            fb,
                        )[q2]).0 == (#[trigger] (registry.classes@[
                            r_ix as int].grouped_basis@[g2])@[l2]).index
                            && !crate::algebra::i64_fits(
                            contribs_spec(tb, fa, fb)[q2].1 * ((registry.classes@[
                                r_ix as int].grouped_basis@[g2])@[l2].scalar as int),
                        );
                    assert(rgroups[g2][l2] == (registry.classes@[
                        r_ix as int].grouped_basis@[g2])@[l2]);
                    assert(contributions@[q2].1 as int == contribs_spec(tb, fa, fb)[q2].1);
                    assert(contributions@[q2].0 == contribs_spec(tb, fa, fb)[q2].0);
                    assert(false);
                }
            }
        }
        let mut parameters: Vec<Parameter> = Vec::new();
        parameters.push(*parameter_a);
        parameters.push(*parameter_b);
        AstNode::TraitImplementation {
            kind,
            result: Parameter { name: VarName::SelfName, data_type: DataType::MultiVector(r_ix) },
            parameters,
            body: vec![
                AstNode::ReturnStatement {
                    expression: Box::new(
                        Expression {
                            size: 1,
                            content: ExpressionContent::InvokeClassMethod(
                                r_ix,
                                OperationKind::Constructor,
                                args,
                            ),
                        },
                    ),
                },
            ],
        }
    }
}


/// The terms of a grade-negation involution over the canonical basis.
pub open spec fn pattern_terms(alg: &GeometricAlgebra, p: crate::involution::GradeNegation) -> Seq<
    (BasisElement, BasisElement),
> {
    Seq::new(
        alg.basis_size_spec(),
        |k: int| (alg.spec_basis()[k], crate::involution::negated_value(alg.spec_basis()[k], p)),
    )
}

/// The terms of the dual involution over the canonical basis.
pub open spec fn dual_terms(alg: &GeometricAlgebra) -> Seq<(BasisElement, BasisElement)> {
    Seq::new(
        alg.basis_size_spec(),
        |k: int| (alg.spec_basis()[k], crate::product::dual_blade(alg.spec_basis()[k], alg)),
    )
}

/// The terms of the five standard involutions, by operation kind.
pub open spec fn involution_terms_of(alg: &GeometricAlgebra, k: OperationKind) -> Seq<
    (BasisElement, BasisElement),
> {
    match k {
        OperationKind::Neg => pattern_terms(alg, crate::involution::GradeNegation::All),
        OperationKind::Automorphism => pattern_terms(
            alg,
            crate::involution::GradeNegation::OddGrades,
        ),
        OperationKind::Reversal => pattern_terms(
            alg,
            crate::involution::GradeNegation::GradeMod4In23,
        ),
        OperationKind::Conjugation => pattern_terms(
            alg,
            crate::involution::GradeNegation::GradePlus3Mod4Below2,
        ),
        OperationKind::Dual => dual_terms(alg),
        _ => Seq::empty(),
    }
}

/// The projection terms of a target class: each of its blades to itself.
pub open spec fn projection_terms(c: MultiVectorClass) -> Seq<(BasisElement, BasisElement)> {
    Seq::new(c.flat_spec().len(), |k: int| (c.flat_spec()[k], c.flat_spec()[k]))
}

/// Whether applying an involution to a class produces a node rather than the
/// sentinel.
pub open spec fn inv_derivable(
    flat: Seq<BasisElement>,
    terms: Seq<(BasisElement, BasisElement)>,
    registry: &MultiVectorClassRegistry,
    explicit_projection: bool,
) -> bool {
    !((!explicit_projection && inv_unmatched(flat, terms)) || inv_map_overflow(flat, terms)
        || inv_lookup_fails(flat, terms, registry) || (exists|sigr: Seq<u16>|
        is_canon_sig(sigr, mapped_indices(flat, terms)) && (#[trigger] registry.lookup_spec(sigr)
            matches Some(rix) && inv_assembly_overflow(
            registry.classes@[rix as int],
            mapped_pairs(flat, terms, 0),
        ))))
}

/// The spec-level table of each named product.
pub open spec fn product_table_of(alg: &GeometricAlgebra, k: OperationKind) -> Seq<ProductTerm> {
    match k {
        OperationKind::GeometricProduct => crate::product::full_table(alg),
        OperationKind::OuterProduct => crate::product::proj_terms(
            crate::product::full_table(alg),
            crate::product::GradeProjection::Outer,
        ),
        OperationKind::InnerProduct => crate::product::proj_terms(
            crate::product::full_table(alg),
            crate::product::GradeProjection::Inner,
        ),
        OperationKind::LeftContraction => crate::product::proj_terms(
            crate::product::full_table(alg),
            crate::product::GradeProjection::LeftContraction,
        ),
        OperationKind::RightContraction => crate::product::proj_terms(
            crate::product::full_table(alg),
            crate::product::GradeProjection::RightContraction,
        ),
        OperationKind::ScalarProduct => crate::product::proj_terms(
            crate::product::full_table(alg),
            crate::product::GradeProjection::Scalar,
        ),
        OperationKind::RegressiveProduct => Seq::new(
            crate::product::proj_terms(
                crate::product::full_table(alg),
                crate::product::GradeProjection::Outer,
            ).len(),
            |k2: int| crate::product::dual_term(
                crate::product::proj_terms(
                    crate::product::full_table(alg),
                    crate::product::GradeProjection::Outer,
                )[k2],
                alg,
            ),
        ),
        _ => Seq::empty(),
    }
}

/// Whether a product table applied to a class pair produces a node rather
/// than the sentinel.
pub open spec fn product_derivable(
    table: Seq<ProductTerm>,
    fa: Seq<BasisElement>,
    fb: Seq<BasisElement>,
    registry: &MultiVectorClassRegistry,
) -> bool {
    !(product_map_overflow(table, fa, fb) || product_lookup_fails(table, fa, fb, registry) || (
    exists|sigr: Seq<u16>|
        is_canon_sig(sigr, surv_indices(table, fa, fb)) && (#[trigger] registry.lookup_spec(sigr)
            matches Some(rix) && product_assembly_overflow(
            registry.classes@[rix as int],
            contribs_spec(table, fa, fb),
        ))))
}

/// Presence of the per-class operations, characterized by their derivation
/// conditions.
pub open spec fn single_iffs(
    single: Seq<(OperationKind, AstNode)>,
    alg: &GeometricAlgebra,
    a: int,
    registry: &MultiVectorClassRegistry,
) -> bool {
    let fa = registry.classes@[a].flat_spec();
    &&& table_has(single, OperationKind::Zero)
    &&& (table_has(single, OperationKind::One) <==> has_scalar_blade(&registry.classes@[a]))
    &&& (table_has(single, OperationKind::Neg) <==> inv_derivable(
        fa,
        involution_terms_of(alg, OperationKind::Neg),
        registry,
        false,
    ))
    &&& (table_has(single, OperationKind::Automorphism) <==> inv_derivable(
        fa,
        involution_terms_of(alg, OperationKind::Automorphism),
        registry,
        false,
    ))
    &&& (table_has(single, OperationKind::Reversal) <==> inv_derivable(
        fa,
        involution_terms_of(alg, OperationKind::Reversal),
        registry,
        false,
    ))
    &&& (table_has(single, OperationKind::Conjugation) <==> inv_derivable(
        fa,
        involution_terms_of(alg, OperationKind::Conjugation),
        registry,
        false,
    ))
    &&& (table_has(single, OperationKind::Dual) <==> inv_derivable(
        fa,
        involution_terms_of(alg, OperationKind::Dual),
        registry,
        false,
    ))
}

/// Presence of the pair operations, characterized by their derivation
/// conditions.
pub open spec fn pair_iffs(
    pt: Seq<(OperationKind, AstNode)>,
    alg: &GeometricAlgebra,
    a: int,
    b: int,
    registry: &MultiVectorClassRegistry,
) -> bool {
    let fa = registry.classes@[a].flat_spec();
    let fb = registry.classes@[b].flat_spec();
    &&& (table_has(pt, OperationKind::Into) <==> (a != b && inv_derivable(
        fa,
        projection_terms(registry.classes@[b]),
        registry,
        true,
    )))
    &&& (table_has(pt, OperationKind::Add) <==> same_shape(
        &registry.classes@[a],
        &registry.classes@[b],
    ))
    &&& (table_has(pt, OperationKind::Sub) <==> same_shape(
        &registry.classes@[a],
        &registry.classes@[b],
    ))
    &&& (table_has(pt, OperationKind::Mul) <==> (a == b && same_shape(
        &registry.classes@[a],
        &registry.classes@[b],
    )))
    &&& (table_has(pt, OperationKind::Div) <==> (a == b && same_shape(
        &registry.classes@[a],
        &registry.classes@[b],
    )))
    &&& (table_has(pt, OperationKind::GeometricProduct) <==> product_derivable(
        product_table_of(alg, OperationKind::GeometricProduct),
        fa,
        fb,
        registry,
    ))
    &&& (table_has(pt, OperationKind::RegressiveProduct) <==> product_derivable(
        product_table_of(alg, OperationKind::RegressiveProduct),
        fa,
        fb,
        registry,
    ))
    &&& (table_has(pt, OperationKind::OuterProduct) <==> product_derivable(
        product_table_of(alg, OperationKind::OuterProduct),
        fa,
        fb,
        registry,
    ))
    &&& (table_has(pt, OperationKind::InnerProduct) <==> product_derivable(
        product_table_of(alg, OperationKind::InnerProduct),
        fa,
        fb,
        registry,
    ))
    &&& (table_has(pt, OperationKind::LeftContraction) <==> product_derivable(
        product_table_of(alg, OperationKind::LeftContraction),
        fa,
        fb,
        registry,
    ))
    &&& (table_has(pt, OperationKind::RightContraction) <==> product_derivable(
        product_table_of(alg, OperationKind::RightContraction),
        fa,
        fb,
        registry,
    ))
    &&& (table_has(pt, OperationKind::ScalarProduct) <==> product_derivable(
        product_table_of(alg, OperationKind::ScalarProduct),
        fa,
        fb,
        registry,
    ))
}

/// Presence of the magnitude chain, characterized by its prerequisites: the
/// squared magnitude and the magnitude exist exactly when the class has a
/// scalar product with itself and a reversal; the signum exactly when it has
/// a magnitude and a geometric product with some scalar-shaped class.
pub open spec fn magnitude_iffs(
    single: Seq<(OperationKind, AstNode)>,
    row: Seq<Vec<(OperationKind, AstNode)>>,
    a: int,
    registry: &MultiVectorClassRegistry,
) -> bool {
    &&& (table_has(single, OperationKind::SquaredMagnitude) <==> (table_has(
        row[a]@,
        OperationKind::ScalarProduct,
    ) && table_has(single, OperationKind::Reversal)))
    &&& (table_has(single, OperationKind::Magnitude) <==> (table_has(
        row[a]@,
        OperationKind::ScalarProduct,
    ) && table_has(single, OperationKind::Reversal)))
    &&& (table_has(single, OperationKind::Signum) <==> (table_has(
        single,
        OperationKind::Magnitude,
    ) && exists|b: int| 0 <= b < row.len() && #[trigger] scalar_gp_cond(registry, row, b)))
}




/// Whether a node is the single-class operation `k` of class `cls`:
/// constants are identified by their result class, the others by their one
/// class parameter.
pub open spec fn emission_matches(n: AstNode, k: OperationKind, cls: int) -> bool {
    n matches AstNode::TraitImplementation { kind, result, parameters, .. } && kind == k && (
    if parameters@.len() > 0 {
        parameters@[0].data_type matches DataType::MultiVector(ix) && ix as int == cls
    } else {
        result.data_type matches DataType::MultiVector(ix) && ix as int == cls
    })
}

/// Whether the emissions list holds the single-class operation `k` of `cls`.
pub open spec fn emitted_for(ems: Seq<AstNode>, k: OperationKind, cls: int) -> bool {
    exists|i: int| 0 <= i < ems.len() && emission_matches(#[trigger] ems[i], k, cls)
}

/// The operation kinds stored in per-class tables.
pub open spec fn is_single_kind(k: OperationKind) -> bool {
    match k {
        OperationKind::Zero | OperationKind::One | OperationKind::Neg
            | OperationKind::Automorphism | OperationKind::Reversal | OperationKind::Conjugation
            | OperationKind::Dual | OperationKind::SquaredMagnitude | OperationKind::Magnitude
            | OperationKind::Signum | OperationKind::Inverse => true,
        _ => false,
    }
}

/// A per-class operation stands in the emissions list exactly when it stands
/// in its class's memo table; classes beyond the list have no emissions.
pub open spec fn emissions_track(
    ems: Seq<AstNode>,
    singles: Seq<Vec<(OperationKind, AstNode)>>,
) -> bool {
    (forall|x: int, k: OperationKind|
        0 <= x < singles.len() && is_single_kind(k) ==> (#[trigger] emitted_for(ems, k, x)
            <==> table_has(singles[x]@, k))) && (forall|x: int, k: OperationKind|
        singles.len() <= x && is_single_kind(k) ==> !(#[trigger] emitted_for(ems, k, x)))
}


/// Mid-pass form of the emissions tracking: processed classes track their
/// tables, the class in progress tracks its growing table, later classes
/// have nothing yet.
pub open spec fn emissions_track_mid(
    ems: Seq<AstNode>,
    singles: Seq<Vec<(OperationKind, AstNode)>>,
    single: Seq<(OperationKind, AstNode)>,
    a: int,
) -> bool {
    (forall|x: int, k: OperationKind|
        0 <= x < singles.len() && is_single_kind(k) ==> (#[trigger] emitted_for(ems, k, x)
            <==> table_has(singles[x]@, k))) && (forall|k: OperationKind|
        is_single_kind(k) ==> (#[trigger] emitted_for(ems, k, a) <==> table_has(single, k))) && (
    forall|x: int, k: OperationKind|
        a < x && is_single_kind(k) ==> !(#[trigger] emitted_for(ems, k, x)))
}

/// Every emitted derived-operation node carries the body its kind dictates:
/// constants are literal constructors, the magnitude chain and the final
/// pass operations are the fixed expression trees over their operands'
/// result types.
pub open spec fn emitted_node_ok(
    node: AstNode,
    registry: &MultiVectorClassRegistry,
    alg: &GeometricAlgebra,
) -> bool {
    match node {
        AstNode::TraitImplementation { kind, result, parameters, body } => match kind {
            OperationKind::Zero | OperationKind::One => (result.data_type
                matches DataType::MultiVector(cix) && cix < registry.classes@.len()
                && parameters@.len() == 0 && constant_body_ok(
                body@,
                cix,
                kind,
                &registry.classes@[cix as int],
            )),
            OperationKind::SquaredMagnitude => parameters@.len() == 1 && (exists|
                sp_dt: DataType,
                rev_dt: DataType,
            |
                #[trigger] sqmag_body_ok(
                    body@,
                    parameters@[0].data_type,
                    parameters@[0].name,
                    sp_dt,
                    rev_dt,
                ) && result.data_type == sp_dt),
            OperationKind::Magnitude => parameters@.len() == 1 && (exists|sq_dt: DataType|
                #[trigger] magnitude_body_ok(
                    body@,
                    parameters@[0].data_type,
                    parameters@[0].name,
                    sq_dt,
                ) && result.data_type == sq_dt),
            OperationKind::Scale => parameters@.len() == 2 && (exists|gp_dt: DataType|
                #[trigger] scale_body_ok(
                    body@,
                    parameters@[0].data_type,
                    parameters@[0].name,
                    parameters@[1].data_type,
                    parameters@[1].name,
                    gp_dt,
                ) && result.data_type == gp_dt),
            OperationKind::Signum => parameters@.len() == 1 && (exists|
                gp_dt: DataType,
                mag_dt: DataType,
            |
                #[trigger] signum_body_ok(
                    body@,
                    parameters@[0].data_type,
                    parameters@[0].name,
                    gp_dt,
                    mag_dt,
                ) && result.data_type == gp_dt),
            OperationKind::Inverse => parameters@.len() == 1 && (exists|
                gp_dt: DataType,
                sq_dt: DataType,
                rev_dt: DataType,
            |
                #[trigger] inverse_body_ok(
                    body@,
                    parameters@[0].data_type,
                    parameters@[0].name,
                    gp_dt,
                    sq_dt,
                    rev_dt,
                ) && result.data_type == gp_dt),
            OperationKind::Powi => parameters@.len() == 2 && (parameters@[0].data_type
                matches DataType::MultiVector(aix) && powi_body_ok(
                body@,
                aix,
                parameters@[0].data_type,
                parameters@[0].name,
                parameters@[1].name,
            ) && result.data_type == parameters@[0].data_type),
            OperationKind::GeometricQuotient => parameters@.len() == 2 && (exists|
                gp_dt: DataType,
                inv_dt: DataType,
            |
                #[trigger] quotient_body_ok(
                    body@,
                    parameters@[0].data_type,
                    parameters@[0].name,
                    parameters@[1].data_type,
                    parameters@[1].name,
                    gp_dt,
                    inv_dt,
                ) && result.data_type == gp_dt),
            OperationKind::Transformation => parameters@.len() == 2 && (parameters@[1].data_type
                matches DataType::MultiVector(bix) && (exists|
                gp_dt: DataType,
                gp2_dt: DataType,
                rev_dt: DataType,
                conv: bool,
            |
                #[trigger] transformation_body_ok(
                    body@,
                    parameters@[0].data_type,
                    parameters@[0].name,
                    parameters@[1].data_type,
                    parameters@[1].name,
                    gp_dt,
                    gp2_dt,
                    rev_dt,
                    conv,
                    bix,
                ))),
            _ => true,
        },
        _ => true,
    }
}

/// Every node of the emissions list satisfies its kind's characterization.
pub open spec fn emissions_ok(
    ems: Seq<AstNode>,
    registry: &MultiVectorClassRegistry,
    alg: &GeometricAlgebra,
) -> bool {
    forall|i: int| 0 <= i < ems.len() ==> emitted_node_ok(#[trigger] ems[i], registry, alg)
}

/// Appending a conforming node keeps the emissions list conforming.
proof fn lemma_emissions_push(
    old_ems: Seq<AstNode>,
    new_ems: Seq<AstNode>,
    registry: &MultiVectorClassRegistry,
    alg: &GeometricAlgebra,
)
    requires
        new_ems.len() == old_ems.len() + 1,
        new_ems == old_ems.push(new_ems.last()),
        emissions_ok(old_ems, registry, alg),
        emitted_node_ok(new_ems.last(), registry, alg),
    ensures
        emissions_ok(new_ems, registry, alg),
        forall|k: OperationKind, cls: int|
            #[trigger] emitted_for(new_ems, k, cls) <==> (emitted_for(old_ems, k, cls)
                || emission_matches(new_ems.last(), k, cls)),
{
    assert forall|i: int| 0 <= i < new_ems.len() implies emitted_node_ok(
        #[trigger] new_ems[i],
        registry,
        alg,
    ) by {
        if i < old_ems.len() {
            assert(new_ems[i] == old_ems[i]);
        } else {
            assert(new_ems[i] == new_ems.last());
        }
    }
    assert forall|k: OperationKind, cls: int| #[trigger]
        emitted_for(new_ems, k, cls) <==> (emitted_for(old_ems, k, cls) || emission_matches(
            new_ems.last(),
            k,
            cls,
        )) by {
        if emitted_for(new_ems, k, cls) {
            let i = choose|i: int|
                0 <= i < new_ems.len() && emission_matches(#[trigger] new_ems[i], k, cls);
            if i < old_ems.len() {
                assert(old_ems[i] == new_ems[i]);
                assert(emitted_for(old_ems, k, cls));
            } else {
                assert(new_ems[i] == new_ems.last());
            }
        }
        if emitted_for(old_ems, k, cls) {
            let i = choose|i: int|
                0 <= i < old_ems.len() && emission_matches(#[trigger] old_ems[i], k, cls);
            assert(new_ems[i] == old_ems[i]);
            assert(emitted_for(new_ems, k, cls));
        }
        if emission_matches(new_ems.last(), k, cls) {
            assert(emission_matches(new_ems[new_ems.len() - 1], k, cls));
            assert(emitted_for(new_ems, k, cls));
        }
    }
}

/// The involution and product lists carry their fixed kinds and exactly the
/// spec-level term tables.
pub open spec fn terms_pinned(
    involutions: Seq<(OperationKind, Involution)>,
    products: Seq<(OperationKind, Product)>,
    alg: &GeometricAlgebra,
) -> bool {
    &&& involutions.len() == 5
    &&& involutions[0].0 == OperationKind::Neg
    &&& involutions[1].0 == OperationKind::Automorphism
    &&& involutions[2].0 == OperationKind::Reversal
    &&& involutions[3].0 == OperationKind::Conjugation
    &&& involutions[4].0 == OperationKind::Dual
    &&& involutions[0].1.terms@ == involution_terms_of(alg, OperationKind::Neg)
    &&& involutions[1].1.terms@ == involution_terms_of(alg, OperationKind::Automorphism)
    &&& involutions[2].1.terms@ == involution_terms_of(alg, OperationKind::Reversal)
    &&& involutions[3].1.terms@ == involution_terms_of(alg, OperationKind::Conjugation)
    &&& involutions[4].1.terms@ == involution_terms_of(alg, OperationKind::Dual)
    &&& products.len() == 7
    &&& products[0].0 == OperationKind::GeometricProduct
    &&& products[1].0 == OperationKind::RegressiveProduct
    &&& products[2].0 == OperationKind::OuterProduct
    &&& products[3].0 == OperationKind::InnerProduct
    &&& products[4].0 == OperationKind::LeftContraction
    &&& products[5].0 == OperationKind::RightContraction
    &&& products[6].0 == OperationKind::ScalarProduct
    &&& products[0].1.terms@ == product_table_of(alg, OperationKind::GeometricProduct)
    &&& products[1].1.terms@ == product_table_of(alg, OperationKind::RegressiveProduct)
    &&& products[2].1.terms@ == product_table_of(alg, OperationKind::OuterProduct)
    &&& products[3].1.terms@ == product_table_of(alg, OperationKind::InnerProduct)
    &&& products[4].1.terms@ == product_table_of(alg, OperationKind::LeftContraction)
    &&& products[5].1.terms@ == product_table_of(alg, OperationKind::RightContraction)
    &&& products[6].1.terms@ == product_table_of(alg, OperationKind::ScalarProduct)
}

/// The built involution and product lists realize the spec-level tables.
proof fn lemma_terms_pinned(
    involutions: Seq<(OperationKind, Involution)>,
    products: Seq<(OperationKind, Product)>,
    alg: &GeometricAlgebra,
)
    requires
        alg.wf(),
        involutions.len() == 5,
        involutions[0].0 == OperationKind::Neg,
        involutions[1].0 == OperationKind::Automorphism,
        involutions[2].0 == OperationKind::Reversal,
        involutions[3].0 == OperationKind::Conjugation,
        involutions[4].0 == OperationKind::Dual,
        forall|j: int| 0 <= j < 4 ==> (#[trigger] involutions[j]).1.terms@.len() == alg.basis_size_spec(),
        involutions[4].1.terms@.len() == alg.basis_size_spec(),
        forall|j: int, k: int|
            0 <= j < 4 && 0 <= k < alg.basis_size_spec() ==> (#[trigger] involutions[j].1.terms@[k])
                == (
            alg.spec_basis()[k],
            crate::involution::negated_value(
                alg.spec_basis()[k],
                (if j == 0 {
                    crate::involution::GradeNegation::All
                } else if j == 1 {
                    crate::involution::GradeNegation::OddGrades
                } else if j == 2 {
                    crate::involution::GradeNegation::GradeMod4In23
                } else {
                    crate::involution::GradeNegation::GradePlus3Mod4Below2
                }),
            ),
            ),
        forall|k: int|
            0 <= k < alg.basis_size_spec() ==> (#[trigger] involutions[4].1.terms@[k]).0
                == alg.spec_basis()[k] && (involutions[4].1.terms@[k].1.index as nat)
                == crate::algebra::complement(alg.n(), alg.spec_basis()[k].index as nat) && (
            involutions[4].1.terms@[k].1.scalar as int) == crate::algebra::spec_dual_scalar(
                alg.spec_basis()[k].scalar as int,
                alg.spec_basis()[k].index as nat,
                alg.n(),
                alg.squares(),
            ),
        products.len() == 7,
        products[0].0 == OperationKind::GeometricProduct,
        products[1].0 == OperationKind::RegressiveProduct,
        products[2].0 == OperationKind::OuterProduct,
        products[3].0 == OperationKind::InnerProduct,
        products[4].0 == OperationKind::LeftContraction,
        products[5].0 == OperationKind::RightContraction,
        products[6].0 == OperationKind::ScalarProduct,
        products[0].1.terms@ == crate::product::full_table(alg),
        products[2].1.terms@ == crate::product::proj_terms(
            crate::product::full_table(alg),
            crate::product::GradeProjection::Outer,
        ),
        products[3].1.terms@ == crate::product::proj_terms(
            crate::product::full_table(alg),
            crate::product::GradeProjection::Inner,
        ),
        products[4].1.terms@ == crate::product::proj_terms(
            crate::product::full_table(alg),
            crate::product::GradeProjection::LeftContraction,
        ),
        products[5].1.terms@ == crate::product::proj_terms(
            crate::product::full_table(alg),
            crate::product::GradeProjection::RightContraction,
        ),
        products[6].1.terms@ == crate::product::proj_terms(
            crate::product::full_table(alg),
            crate::product::GradeProjection::Scalar,
        ),
        products[1].1.terms@.len() == crate::product::proj_terms(
            crate::product::full_table(alg),
            crate::product::GradeProjection::Outer,
        ).len(),
        forall|k: int|
            0 <= k < products[1].1.terms@.len() ==> (#[trigger] products[1].1.terms@[k])
                == crate::product::dual_term(
                crate::product::proj_terms(
                    crate::product::full_table(alg),
                    crate::product::GradeProjection::Outer,
                )[k],
                alg,
            ),
    ensures
        terms_pinned(involutions, products, alg),
{
    vstd::arithmetic::power2::lemma2_to64();
    if alg.n() < 16 {
        vstd::arithmetic::power2::lemma_pow2_strictly_increases(alg.n(), 16);
    }
    assert(involutions[0].1.terms@ =~= involution_terms_of(alg, OperationKind::Neg));
    assert(involutions[1].1.terms@ =~= involution_terms_of(alg, OperationKind::Automorphism));
    assert(involutions[2].1.terms@ =~= involution_terms_of(alg, OperationKind::Reversal));
    assert(involutions[3].1.terms@ =~= involution_terms_of(alg, OperationKind::Conjugation));
    assert forall|k: int| 0 <= k < alg.basis_size_spec() implies involutions[4].1.terms@[k]
        == dual_terms(alg)[k] by {
        alg.lemma_basis_blade_unit(k as nat);
        crate::algebra::lemma_complement(k as nat, alg.n());
        let value = involutions[4].1.terms@[k].1;
        let expected = crate::product::dual_blade(alg.spec_basis()[k], alg);
        assert(crate::algebra::complement(alg.n(), k as nat) < 65536);
        assert(value.index == expected.index);
        assert(value.scalar == expected.scalar);
    }
    assert(involutions[4].1.terms@ =~= dual_terms(alg));
    assert(products[1].1.terms@ =~= product_table_of(alg, OperationKind::RegressiveProduct));
}

/// Inserts an operation into a table unless it is already present, keeping
/// map semantics over the association list.
fn insert_op(t: &mut Vec<(OperationKind, AstNode)>, kind: OperationKind, node: AstNode)
    requires
        table_wf(old(t)@),
        node matches AstNode::TraitImplementation { kind: k, .. } && k == kind,
    ensures
        table_wf(final(t)@),
        forall|k2: OperationKind|
            #[trigger] table_has(final(t)@, k2) <==> (table_has(old(t)@, k2) || k2 == kind),
{
    match find_op(t, kind) {
        Some(_) => {
            proof {
                assert forall|k2: OperationKind| #[trigger]
                    table_has(t@, k2) <==> (table_has(t@, k2) || k2 == kind) by {
                    if k2 == kind {
                        assert(table_has(t@, kind));
                    }
                }
            }
        },
        None => {
            let ghost old_t = t@;
            t.push((kind, node));
            proof {
                assert(t@ == old_t.push((kind, node)));
                assert forall|k2: OperationKind| #[trigger]
                    table_has(t@, k2) <==> (table_has(old_t, k2) || k2 == kind) by {
                    if table_has(t@, k2) {
                        let i = choose|i: int| 0 <= i < t@.len() && (#[trigger] t@[i]).0 == k2;
                        if i < old_t.len() {
                            assert(old_t[i].0 == k2);
                            assert(table_has(old_t, k2));
                        } else {
                            assert(k2 == kind);
                        }
                    }
                    if table_has(old_t, k2) {
                        let i = choose|i: int|
                            0 <= i < old_t.len() && (#[trigger] old_t[i]).0 == k2;
                        assert(t@[i].0 == k2);
                        assert(table_has(t@, k2));
                    }
                    if k2 == kind {
                        assert(t@[old_t.len() as int].0 == kind);
                        assert(table_has(t@, kind));
                    }
                }
                assert forall|i: int| 0 <= i < t@.len() implies ((#[trigger] t@[i]).1
                    matches AstNode::TraitImplementation { kind: kk, .. } && kk == t@[i].0) by {
                    if i < old_t.len() {
                        assert(t@[i] == old_t[i]);
                    }
                }
            }
        },
    }
}

/// The b-th class is scalar-shaped and the pair row holds a geometric
/// product for it.
pub open spec fn scalar_gp_cond(
    registry: &MultiVectorClassRegistry,
    row: Seq<Vec<(OperationKind, AstNode)>>,
    b: int,
) -> bool {
    registry.classes@[b].is_scalar_spec() && table_has(
        row[b]@,
        OperationKind::GeometricProduct,
    )
}

/// The inverse is derived for a class exactly when both the squared
/// magnitude and the reversal are, and a geometric product with some
/// scalar-shaped class exists.
pub open spec fn inverse_iff_for(
    single: Seq<(OperationKind, AstNode)>,
    row: Seq<Vec<(OperationKind, AstNode)>>,
    registry: &MultiVectorClassRegistry,
) -> bool {
    table_has(single, OperationKind::Inverse) <==> (table_has(
        single,
        OperationKind::SquaredMagnitude,
    ) && table_has(single, OperationKind::Reversal) && exists|b: int|
        0 <= b < row.len() && #[trigger] scalar_gp_cond(registry, row, b))
}

/// The memo tables of the derivation pass: one operation table per class and
/// one per ordered class pair.
pub struct OperationTables {
    pub single: Vec<Vec<(OperationKind, AstNode)>>,
    pub pair: Vec<Vec<Vec<(OperationKind, AstNode)>>>,
}

/// Runs the full derivation pass in registration order and returns the memo
/// tables together with every produced node in emission order.
#[verifier::rlimit(100)]
pub fn derive_all(algebra: &GeometricAlgebra, registry: &MultiVectorClassRegistry) -> (r: (
    OperationTables,
    Vec<AstNode>,
))
    requires
        algebra.wf(),
        registry.wf(),
        crate::product::basis_pairs_fit(algebra),
        crate::product::basis_duals_fit(algebra),
    ensures
        r.0.single@.len() == registry.classes@.len(),
        r.0.pair@.len() == registry.classes@.len(),
        forall|a: int|
            0 <= a < r.0.pair@.len() ==> (#[trigger] r.0.pair@[a])@.len()
                == registry.classes@.len(),
        forall|a: int| 0 <= a < r.0.single@.len() ==> table_wf((#[trigger] r.0.single@[a])@),
        forall|a: int, b: int|
            0 <= a < r.0.pair@.len() && 0 <= b < registry.classes@.len() ==> table_wf(
                (#[trigger] (r.0.pair@[a])@[b])@,
            ),
        forall|a: int|
            0 <= a < r.0.single@.len() ==> inverse_iff_for(
                (#[trigger] r.0.single@[a])@,
                r.0.pair@[a]@,
                registry,
            ),
        forall|a: int|
            0 <= a < r.0.single@.len() ==> single_iffs(
                (#[trigger] r.0.single@[a])@,
                algebra,
                a,
                registry,
            ),
        forall|a: int|
            0 <= a < r.0.single@.len() ==> magnitude_iffs(
                (#[trigger] r.0.single@[a])@,
                r.0.pair@[a]@,
                a,
                registry,
            ),
        forall|a: int, b: int|
            0 <= a < r.0.pair@.len() && 0 <= b < registry.classes@.len() ==> pair_iffs(
                (#[trigger] (r.0.pair@[a])@[b])@,
                algebra,
                a,
                b,
                registry,
            ),
        emissions_ok(r.1@, registry, algebra),
        emissions_track(r.1@, r.0.single@),
{
    let nclasses = registry.classes.len();
    let involutions = Involution::involutions(algebra);
    let products = Product::products(algebra);
    proof {
        lemma_terms_pinned(involutions@, products@, algebra);
    }
    let mut emissions: Vec<AstNode> = Vec::new();
    let ghost ems0 = emissions@;
    emissions.push(AstNode::Preamble);
    proof {
        lemma_emissions_push(ems0, emissions@, registry, algebra);
    }
    let mut c: usize = 0;
    while c < nclasses
        invariant
            emissions_ok(emissions@, registry, algebra),
            emissions_track(emissions@, Seq::<Vec<(OperationKind, AstNode)>>::empty()),
            nclasses == registry.classes@.len(),
        decreases nclasses - c,
    {
        let ghost ems0 = emissions@;
        emissions.push(AstNode::ClassDefinition { class: c });
        proof {
            lemma_emissions_push(ems0, emissions@, registry, algebra);
        }
        c = c + 1;
    }
    let mut singles: Vec<Vec<(OperationKind, AstNode)>> = Vec::new();
    let mut pairs: Vec<Vec<Vec<(OperationKind, AstNode)>>> = Vec::new();
    let mut a: usize = 0;
    while a < nclasses
        invariant
            emissions_ok(emissions@, registry, algebra),
            algebra.wf(),
            registry.wf(),
            nclasses == registry.classes@.len(),
            terms_pinned(involutions@, products@, algebra),
            emissions_track(emissions@, singles@),
            a <= nclasses,
            singles@.len() == a,
            pairs@.len() == a,
            forall|x: int| 0 <= x < a ==> table_wf((#[trigger] singles@[x])@),
            forall|x: int| 0 <= x < a ==> (#[trigger] pairs@[x])@.len() == nclasses,
            forall|x: int, y: int|
                0 <= x < a && 0 <= y < nclasses ==> table_wf((#[trigger] (pairs@[x])@[y])@),
            forall|x: int|
                0 <= x < a ==> inverse_iff_for(
                    (#[trigger] singles@[x])@,
                    pairs@[x]@,
                    registry,
                ),
            forall|x: int|
                0 <= x < a ==> single_iffs((#[trigger] singles@[x])@, algebra, x, registry),
            forall|x: int|
                0 <= x < a ==> magnitude_iffs(
                    (#[trigger] singles@[x])@,
                    pairs@[x]@,
                    x,
                    registry,
                ),
            forall|x: int, y: int|
                0 <= x < a && 0 <= y < nclasses ==> pair_iffs(
                    (#[trigger] (pairs@[x])@[y])@,
                    algebra,
                    x,
                    y,
                    registry,
                ),
        decreases nclasses - a,
    {
        let parameter_a = Parameter {
            name: VarName::SelfName,
            data_type: DataType::MultiVector(a),
        };
        let mut single: Vec<(OperationKind, AstNode)> = Vec::new();
        proof {
            assert(emissions_track_mid(emissions@, singles@, single@, a as int));
        }
        // Constants: Zero and One.
        let zero = MultiVectorClass::constant(a, registry, OperationKind::Zero);
        if !zero.is_empty_node() {
            let ghost ems0 = emissions@;
            emissions.push(MultiVectorClass::constant(a, registry, OperationKind::Zero));
            proof {
                lemma_emissions_push(ems0, emissions@, registry, algebra);
            }
            insert_op(&mut single, OperationKind::Zero, zero);
        }
        let one = MultiVectorClass::constant(a, registry, OperationKind::One);
        if !one.is_empty_node() {
            let ghost ems0 = emissions@;
            emissions.push(MultiVectorClass::constant(a, registry, OperationKind::One));
            proof {
                lemma_emissions_push(ems0, emissions@, registry, algebra);
            }
            insert_op(&mut single, OperationKind::One, one);
        }
        proof {
            assert(table_has(single@, OperationKind::Zero));
            assert(table_has(single@, OperationKind::One) <==> has_scalar_blade(
                &registry.classes@[a as int],
            ));
            assert(!table_has(single@, OperationKind::Inverse));
            assert(!table_has(single@, OperationKind::Magnitude));
            assert(!table_has(single@, OperationKind::Signum));
            assert(!table_has(single@, OperationKind::SquaredMagnitude));
            assert(forall|j: int|
                0 <= j < 5 ==> !table_has(single@, (#[trigger] involutions@[j]).0));
        }
        // The five involutions.
        let mut ii: usize = 0;
        while ii < involutions.len()
            invariant
                emissions_ok(emissions@, registry, algebra),
            emissions_ok(emissions@, registry, algebra),
                registry.wf(),
                algebra.wf(),
                a < nclasses,
                nclasses == registry.classes@.len(),
                terms_pinned(involutions@, products@, algebra),
                parameter_a.data_type == DataType::MultiVector(a),
                singles@.len() == a,
                emissions_track_mid(emissions@, singles@, single@, a as int),
                ii <= 5,
                table_wf(single@),
                table_has(single@, OperationKind::Zero),
                table_has(single@, OperationKind::One) <==> has_scalar_blade(
                    &registry.classes@[a as int],
                ),
                !table_has(single@, OperationKind::Inverse),
                !table_has(single@, OperationKind::SquaredMagnitude),
                !table_has(single@, OperationKind::Magnitude),
                !table_has(single@, OperationKind::Signum),
                forall|j: int|
                    0 <= j < ii ==> (table_has(single@, (#[trigger] involutions@[j]).0)
                        <==> inv_derivable(
                        registry.classes@[a as int].flat_spec(),
                        involution_terms_of(algebra, involutions@[j].0),
                        registry,
                        false,
                    )),
                forall|j: int|
                    ii <= j < 5 ==> !table_has(single@, (#[trigger] involutions@[j]).0),
            decreases 5 - ii,
        {
            let kind = involutions[ii].0;
            let node = MultiVectorClass::involution(
                kind,
                &involutions[ii].1,
                &parameter_a,
                registry,
                false,
            );
            proof {
                assert(involutions@[ii as int].1.terms@ == involution_terms_of(algebra, kind)) by {
                    if ii == 0 {
                    } else if ii == 1 {
                    } else if ii == 2 {
                    } else if ii == 3 {
                    } else {
                    }
                }
                assert(kind != OperationKind::Inverse && kind != OperationKind::SquaredMagnitude
                    && kind != OperationKind::Magnitude && kind != OperationKind::Signum && kind
                    != OperationKind::Zero && kind != OperationKind::One) by {
                    if ii == 0 {
                    } else if ii == 1 {
                    } else if ii == 2 {
                    } else if ii == 3 {
                    } else {
                    }
                }
            }
            if !node.is_empty_node() {
                let ghost ems0 = emissions@;
                emissions.push(
                    MultiVectorClass::involution(
                        kind,
                        &involutions[ii].1,
                        &parameter_a,
                        registry,
                        false,
                    ),
                );
                proof {
                    lemma_emissions_push(ems0, emissions@, registry, algebra);
                }
                insert_op(&mut single, kind, node);
                proof {
                    assert(inv_derivable(
                        registry.classes@[a as int].flat_spec(),
                        involution_terms_of(algebra, kind),
                        registry,
                        false,
                    ));
                    assert forall|j: int| 0 <= j < ii + 1 implies (table_has(
                        single@,
                        (#[trigger] involutions@[j]).0,
                    ) <==> inv_derivable(
                        registry.classes@[a as int].flat_spec(),
                        involution_terms_of(algebra, involutions@[j].0),
                        registry,
                        false,
                    )) by {
                        assert(involutions@[j].0 != kind || j == ii as int);
                    }
                }
            } else {
                proof {
                    assert(!inv_derivable(
                        registry.classes@[a as int].flat_spec(),
                        involution_terms_of(algebra, kind),
                        registry,
                        false,
                    ));
                }
            }
            ii = ii + 1;
        }
        proof {
            assert(single_iffs(single@, algebra, a as int, registry)) by {
                assert(table_has(single@, OperationKind::Neg) <==> inv_derivable(
                    registry.classes@[a as int].flat_spec(),
                    involution_terms_of(algebra, OperationKind::Neg),
                    registry,
                    false,
                )) by {
                    assert(involutions@[0].0 == OperationKind::Neg);
                }
                assert(table_has(single@, OperationKind::Automorphism) <==> inv_derivable(
                    registry.classes@[a as int].flat_spec(),
                    involution_terms_of(algebra, OperationKind::Automorphism),
                    registry,
                    false,
                )) by {
                    assert(involutions@[1].0 == OperationKind::Automorphism);
                }
                assert(table_has(single@, OperationKind::Reversal) <==> inv_derivable(
                    registry.classes@[a as int].flat_spec(),
                    involution_terms_of(algebra, OperationKind::Reversal),
                    registry,
                    false,
                )) by {
                    assert(involutions@[2].0 == OperationKind::Reversal);
                }
                assert(table_has(single@, OperationKind::Conjugation) <==> inv_derivable(
                    registry.classes@[a as int].flat_spec(),
                    involution_terms_of(algebra, OperationKind::Conjugation),
                    registry,
                    false,
                )) by {
                    assert(involutions@[3].0 == OperationKind::Conjugation);
                }
                assert(table_has(single@, OperationKind::Dual) <==> inv_derivable(
                    registry.classes@[a as int].flat_spec(),
                    involution_terms_of(algebra, OperationKind::Dual),
                    registry,
                    false,
                )) by {
                    assert(involutions@[4].0 == OperationKind::Dual);
                }
            }
        }
        // Pair operations against every class.
        let mut pair_row: Vec<Vec<(OperationKind, AstNode)>> = Vec::new();
        let mut b: usize = 0;
        while b < nclasses
            invariant
                emissions_ok(emissions@, registry, algebra),
            emissions_ok(emissions@, registry, algebra),
                algebra.wf(),
                registry.wf(),
                a < nclasses,
                nclasses == registry.classes@.len(),
                terms_pinned(involutions@, products@, algebra),
                parameter_a.data_type == DataType::MultiVector(a),
                singles@.len() == a,
                emissions_track_mid(emissions@, singles@, single@, a as int),
                b <= nclasses,
                pair_row@.len() == b,
                forall|y: int| 0 <= y < b ==> table_wf((#[trigger] pair_row@[y])@),
                forall|y: int|
                    0 <= y < b ==> pair_iffs(
                        (#[trigger] pair_row@[y])@,
                        algebra,
                        a as int,
                        y,
                        registry,
                    ),
            decreases nclasses - b,
        {
            let parameter_b = Parameter {
                name: VarName::OtherName,
                data_type: DataType::MultiVector(b),
            };
            let mut pt: Vec<(OperationKind, AstNode)> = Vec::new();
            if a != b {
                let proj = Involution::projection(&registry.classes[b]);
                proof {
                    assert(proj.terms@ =~= projection_terms(registry.classes@[b as int]));
                }
                let node = MultiVectorClass::involution(
                    OperationKind::Into,
                    &proj,
                    &parameter_a,
                    registry,
                    true,
                );
                if !node.is_empty_node() {
                    let ghost ems0 = emissions@;
                    emissions.push(
                        MultiVectorClass::involution(
                            OperationKind::Into,
                            &proj,
                            &parameter_a,
                            registry,
                            true,
                        ),
                    );
                    proof {
                        lemma_emissions_push(ems0, emissions@, registry, algebra);
                    }
                    insert_op(&mut pt, OperationKind::Into, node);
                }
            }
            proof {
                assert(table_has(pt@, OperationKind::Into) <==> (a != b && inv_derivable(
                    registry.classes@[a as int].flat_spec(),
                    projection_terms(registry.classes@[b as int]),
                    registry,
                    true,
                )));
                assert(!table_has(pt@, OperationKind::Add));
                assert(!table_has(pt@, OperationKind::Sub));
                assert(!table_has(pt@, OperationKind::Mul));
                assert(!table_has(pt@, OperationKind::Div));
                assert(forall|j: int|
                    0 <= j < 7 ==> !table_has(pt@, (#[trigger] products@[j]).0));
            }
            let add_node = MultiVectorClass::element_wise(
                OperationKind::Add,
                &parameter_a,
                &parameter_b,
                registry,
            );
            if !add_node.is_empty_node() {
                let ghost ems0 = emissions@;
                emissions.push(
                    MultiVectorClass::element_wise(
                        OperationKind::Add,
                        &parameter_a,
                        &parameter_b,
                        registry,
                    ),
                );
                proof {
                    lemma_emissions_push(ems0, emissions@, registry, algebra);
                }
                insert_op(&mut pt, OperationKind::Add, add_node);
            }
            let sub_node = MultiVectorClass::element_wise(
                OperationKind::Sub,
                &parameter_a,
                &parameter_b,
                registry,
            );
            if !sub_node.is_empty_node() {
                let ghost ems0 = emissions@;
                emissions.push(
                    MultiVectorClass::element_wise(
                        OperationKind::Sub,
                        &parameter_a,
                        &parameter_b,
                        registry,
                    ),
                );
                proof {
                    lemma_emissions_push(ems0, emissions@, registry, algebra);
                }
                insert_op(&mut pt, OperationKind::Sub, sub_node);
            }
            if a == b {
                let mul_node = MultiVectorClass::element_wise(
                    OperationKind::Mul,
                    &parameter_a,
                    &parameter_b,
                    registry,
                );
                if !mul_node.is_empty_node() {
                    let ghost ems0 = emissions@;
                    emissions.push(
                        MultiVectorClass::element_wise(
                            OperationKind::Mul,
                            &parameter_a,
                            &parameter_b,
                            registry,
                        ),
                    );
                    proof {
                        lemma_emissions_push(ems0, emissions@, registry, algebra);
                    }
                    insert_op(&mut pt, OperationKind::Mul, mul_node);
                }
                let div_node = MultiVectorClass::element_wise(
                    OperationKind::Div,
                    &parameter_a,
                    &parameter_b,
                    registry,
                );
                if !div_node.is_empty_node() {
                    let ghost ems0 = emissions@;
                    emissions.push(
                        MultiVectorClass::element_wise(
                            OperationKind::Div,
                            &parameter_a,
                            &parameter_b,
                            registry,
                        ),
                    );
                    proof {
                        lemma_emissions_push(ems0, emissions@, registry, algebra);
                    }
                    insert_op(&mut pt, OperationKind::Div, div_node);
                }
            }
            proof {
                assert(table_has(pt@, OperationKind::Add) <==> same_shape(
                    &registry.classes@[a as int],
                    &registry.classes@[b as int],
                ));
                assert(table_has(pt@, OperationKind::Sub) <==> same_shape(
                    &registry.classes@[a as int],
                    &registry.classes@[b as int],
                ));
                assert(table_has(pt@, OperationKind::Mul) <==> (a == b && same_shape(
                    &registry.classes@[a as int],
                    &registry.classes@[b as int],
                )));
                assert(table_has(pt@, OperationKind::Div) <==> (a == b && same_shape(
                    &registry.classes@[a as int],
                    &registry.classes@[b as int],
                )));
            }
            let mut pi: usize = 0;
            while pi < products.len()
                invariant
                    emissions_ok(emissions@, registry, algebra),
                emissions_ok(emissions@, registry, algebra),
            emissions_ok(emissions@, registry, algebra),
                    algebra.wf(),
                    registry.wf(),
                    a < nclasses,
                    b < nclasses,
                    nclasses == registry.classes@.len(),
                    terms_pinned(involutions@, products@, algebra),
                    parameter_a.data_type == DataType::MultiVector(a),
                    parameter_b.data_type == DataType::MultiVector(b),
                    singles@.len() == a,
                    emissions_track_mid(emissions@, singles@, single@, a as int),
                    pi <= 7,
                    table_wf(pt@),
                    table_has(pt@, OperationKind::Into) <==> (a != b && inv_derivable(
                        registry.classes@[a as int].flat_spec(),
                        projection_terms(registry.classes@[b as int]),
                        registry,
                        true,
                    )),
                    table_has(pt@, OperationKind::Add) <==> same_shape(
                        &registry.classes@[a as int],
                        &registry.classes@[b as int],
                    ),
                    table_has(pt@, OperationKind::Sub) <==> same_shape(
                        &registry.classes@[a as int],
                        &registry.classes@[b as int],
                    ),
                    table_has(pt@, OperationKind::Mul) <==> (a == b && same_shape(
                        &registry.classes@[a as int],
                        &registry.classes@[b as int],
                    )),
                    table_has(pt@, OperationKind::Div) <==> (a == b && same_shape(
                        &registry.classes@[a as int],
                        &registry.classes@[b as int],
                    )),
                    forall|j: int|
                        0 <= j < pi ==> (table_has(pt@, (#[trigger] products@[j]).0)
                            <==> product_derivable(
                            product_table_of(algebra, products@[j].0),
                            registry.classes@[a as int].flat_spec(),
                            registry.classes@[b as int].flat_spec(),
                            registry,
                        )),
                    forall|j: int|
                        pi <= j < 7 ==> !table_has(pt@, (#[trigger] products@[j]).0),
                decreases 7 - pi,
            {
                let kind = products[pi].0;
                let node = MultiVectorClass::product(
                    kind,
                    &products[pi].1,
                    &parameter_a,
                    &parameter_b,
                    registry,
                );
                proof {
                    assert(products@[pi as int].1.terms@ == product_table_of(algebra, kind)) by {
                        if pi == 0 {
                        } else if pi == 1 {
                        } else if pi == 2 {
                        } else if pi == 3 {
                        } else if pi == 4 {
                        } else if pi == 5 {
                        } else {
                        }
                    }
                    assert(kind != OperationKind::Into && kind != OperationKind::Add && kind
                        != OperationKind::Sub && kind != OperationKind::Mul && kind
                        != OperationKind::Div) by {
                        if pi == 0 {
                        } else if pi == 1 {
                        } else if pi == 2 {
                        } else if pi == 3 {
                        } else if pi == 4 {
                        } else if pi == 5 {
                        } else {
                        }
                    }
                }
                if !node.is_empty_node() {
                    let ghost ems0 = emissions@;
                    emissions.push(
                        MultiVectorClass::product(
                            kind,
                            &products[pi].1,
                            &parameter_a,
                            &parameter_b,
                            registry,
                        ),
                    );
                    proof {
                        lemma_emissions_push(ems0, emissions@, registry, algebra);
                    }
                    insert_op(&mut pt, kind, node);
                    proof {
                        assert forall|j: int| 0 <= j < pi + 1 implies (table_has(
                            pt@,
                            (#[trigger] products@[j]).0,
                        ) <==> product_derivable(
                            product_table_of(algebra, products@[j].0),
                            registry.classes@[a as int].flat_spec(),
                            registry.classes@[b as int].flat_spec(),
                            registry,
                        )) by {
                            assert(products@[j].0 != kind || j == pi as int);
                        }
                    }
                } else {
                    proof {
                        assert(!product_derivable(
                            product_table_of(algebra, kind),
                            registry.classes@[a as int].flat_spec(),
                            registry.classes@[b as int].flat_spec(),
                            registry,
                        ));
                    }
                }
                pi = pi + 1;
            }
            proof {
                assert(pair_iffs(pt@, algebra, a as int, b as int, registry)) by {
                    assert(table_has(pt@, OperationKind::GeometricProduct) <==> product_derivable(
                        product_table_of(algebra, OperationKind::GeometricProduct),
                        registry.classes@[a as int].flat_spec(),
                        registry.classes@[b as int].flat_spec(),
                        registry,
                    )) by {
                        assert(products@[0].0 == OperationKind::GeometricProduct);
                    }
                    assert(table_has(pt@, OperationKind::RegressiveProduct)
                        <==> product_derivable(
                        product_table_of(algebra, OperationKind::RegressiveProduct),
                        registry.classes@[a as int].flat_spec(),
                        registry.classes@[b as int].flat_spec(),
                        registry,
                    )) by {
                        assert(products@[1].0 == OperationKind::RegressiveProduct);
                    }
                    assert(table_has(pt@, OperationKind::OuterProduct) <==> product_derivable(
                        product_table_of(algebra, OperationKind::OuterProduct),
                        registry.classes@[a as int].flat_spec(),
                        registry.classes@[b as int].flat_spec(),
                        registry,
                    )) by {
                        assert(products@[2].0 == OperationKind::OuterProduct);
                    }
                    assert(table_has(pt@, OperationKind::InnerProduct) <==> product_derivable(
                        product_table_of(algebra, OperationKind::InnerProduct),
                        registry.classes@[a as int].flat_spec(),
                        registry.classes@[b as int].flat_spec(),
                        registry,
                    )) by {
                        assert(products@[3].0 == OperationKind::InnerProduct);
                    }
                    assert(table_has(pt@, OperationKind::LeftContraction) <==> product_derivable(
                        product_table_of(algebra, OperationKind::LeftContraction),
                        registry.classes@[a as int].flat_spec(),
                        registry.classes@[b as int].flat_spec(),
                        registry,
                    )) by {
                        assert(products@[4].0 == OperationKind::LeftContraction);
                    }
                    assert(table_has(pt@, OperationKind::RightContraction)
                        <==> product_derivable(
                        product_table_of(algebra, OperationKind::RightContraction),
                        registry.classes@[a as int].flat_spec(),
                        registry.classes@[b as int].flat_spec(),
                        registry,
                    )) by {
                        assert(products@[5].0 == OperationKind::RightContraction);
                    }
                    assert(table_has(pt@, OperationKind::ScalarProduct) <==> product_derivable(
                        product_table_of(algebra, OperationKind::ScalarProduct),
                        registry.classes@[a as int].flat_spec(),
                        registry.classes@[b as int].flat_spec(),
                        registry,
                    )) by {
                        assert(products@[6].0 == OperationKind::ScalarProduct);
                    }
                }
            }
            pair_row.push(pt);
            b = b + 1;
        }
        // Squared magnitude and magnitude, when the class has a scalar
        // product with itself and a reversal.
        match find_op(&pair_row[a], OperationKind::ScalarProduct) {
            Some(spi) => {
                match find_op(&single, OperationKind::Reversal) {
                    Some(ri) => {
                        let sq = derive_squared_magnitude(
                            &pair_row[a][spi].1,
                            &single[ri].1,
                            &parameter_a,
                        );
                        let ghost ems0 = emissions@;
                        emissions.push(
                            derive_squared_magnitude(
                                &pair_row[a][spi].1,
                                &single[ri].1,
                                &parameter_a,
                            ),
                        );
                        proof {
                            lemma_emissions_push(ems0, emissions@, registry, algebra);
                        }
                        let mag = derive_magnitude(&sq, &parameter_a);
                        let ghost ems0 = emissions@;
                        emissions.push(derive_magnitude(&sq, &parameter_a));
                        proof {
                            lemma_emissions_push(ems0, emissions@, registry, algebra);
                        }
                        insert_op(&mut single, OperationKind::SquaredMagnitude, sq);
                        insert_op(&mut single, OperationKind::Magnitude, mag);
                    },
                    None => {},
                }
            },
            None => {},
        }
        proof {
            assert(!table_has(single@, OperationKind::Inverse));
            assert(!table_has(single@, OperationKind::Signum));
            assert(single_iffs(single@, algebra, a as int, registry));
            assert(table_has(single@, OperationKind::SquaredMagnitude) <==> (table_has(
                pair_row@[a as int]@,
                OperationKind::ScalarProduct,
            ) && table_has(single@, OperationKind::Reversal)));
            assert(table_has(single@, OperationKind::Magnitude) <==> (table_has(
                pair_row@[a as int]@,
                OperationKind::ScalarProduct,
            ) && table_has(single@, OperationKind::Reversal)));
        }
        // Scale, signum and inverse against every scalar-shaped class with a
        // geometric product.
        let ghost sqmag_cond = table_has(pair_row@[a as int]@, OperationKind::ScalarProduct)
            && table_has(single@, OperationKind::Reversal);
        let mut b2: usize = 0;
        while b2 < nclasses
            invariant
                emissions_ok(emissions@, registry, algebra),
            emissions_ok(emissions@, registry, algebra),
                algebra.wf(),
                registry.wf(),
                a < nclasses,
                nclasses == registry.classes@.len(),
                parameter_a.data_type == DataType::MultiVector(a),
                singles@.len() == a,
                emissions_track_mid(emissions@, singles@, single@, a as int),
                b2 <= nclasses,
                pair_row@.len() == nclasses,
                forall|y: int| 0 <= y < nclasses ==> table_wf((#[trigger] pair_row@[y])@),
                table_wf(single@),
                single_iffs(single@, algebra, a as int, registry),
                sqmag_cond == (table_has(pair_row@[a as int]@, OperationKind::ScalarProduct)
                    && table_has(single@, OperationKind::Reversal)),
                table_has(single@, OperationKind::SquaredMagnitude) <==> sqmag_cond,
                table_has(single@, OperationKind::Magnitude) <==> sqmag_cond,
                table_has(single@, OperationKind::Signum) <==> (table_has(
                    single@,
                    OperationKind::Magnitude,
                ) && exists|y: int|
                    0 <= y < b2 && #[trigger] scalar_gp_cond(registry, pair_row@, y)),
                table_has(single@, OperationKind::Inverse) <==> (table_has(
                    single@,
                    OperationKind::SquaredMagnitude,
                ) && table_has(single@, OperationKind::Reversal) && exists|y: int|
                    0 <= y < b2 && #[trigger] scalar_gp_cond(registry, pair_row@, y)),
            decreases nclasses - b2,
        {
            let parameter_b = Parameter {
                name: VarName::OtherName,
                data_type: DataType::MultiVector(b2),
            };
            let gp_found = find_op(&pair_row[b2], OperationKind::GeometricProduct);
            let b_scalar = registry.classes[b2].is_scalar();
            match gp_found {
                Some(gpi) => {
                    if b_scalar {
                        proof {
                            assert(scalar_gp_cond(registry, pair_row@, b2 as int));
                        }
                        if !registry.classes[a].is_scalar() {
                            let scale = derive_scale(
                                &pair_row[b2][gpi].1,
                                &parameter_a,
                                &parameter_b,
                            );
                            if !scale.is_empty_node() {
                                let ghost ems0 = emissions@;
                                emissions.push(scale);
                                proof {
                                    lemma_emissions_push(ems0, emissions@, registry, algebra);
                                }
                            }
                        }
                        match find_op(&single, OperationKind::Magnitude) {
                            Some(mi) => {
                                let sig = derive_signum(
                                    &pair_row[b2][gpi].1,
                                    &single[mi].1,
                                    &parameter_a,
                                );
                                let ghost ems0 = emissions@;
                                emissions.push(
                                    derive_signum(
                                        &pair_row[b2][gpi].1,
                                        &single[mi].1,
                                        &parameter_a,
                                    ),
                                );
                                proof {
                                    lemma_emissions_push(ems0, emissions@, registry, algebra);
                                }
                                insert_op(&mut single, OperationKind::Signum, sig);
                            },
                            None => {},
                        }
                        let sq_found = find_op(&single, OperationKind::SquaredMagnitude);
                        let rev_found = find_op(&single, OperationKind::Reversal);
                        match (sq_found, rev_found) {
                            (Some(sqi), Some(ri)) => {
                                let inv = derive_inverse(
                                    &pair_row[b2][gpi].1,
                                    &single[sqi].1,
                                    &single[ri].1,
                                    &parameter_a,
                                );
                                let ghost ems0 = emissions@;
                                emissions.push(
                                    derive_inverse(
                                        &pair_row[b2][gpi].1,
                                        &single[sqi].1,
                                        &single[ri].1,
                                        &parameter_a,
                                    ),
                                );
                                proof {
                                    lemma_emissions_push(ems0, emissions@, registry, algebra);
                                }
                                insert_op(&mut single, OperationKind::Inverse, inv);
                            },
                            _ => {},
                        }
                    } else {
                        proof {
                            assert(!scalar_gp_cond(registry, pair_row@, b2 as int));
                        }
                    }
                },
                None => {
                    proof {
                        assert(!scalar_gp_cond(registry, pair_row@, b2 as int));
                    }
                },
            }
            b2 = b2 + 1;
        }
        proof {
            assert(inverse_iff_for(single@, pair_row@, registry));
            assert(magnitude_iffs(single@, pair_row@, a as int, registry));
        }
        let ghost single_snapshot = single@;
        singles.push(single);
        pairs.push(pair_row);
        proof {
            assert(emissions_track(emissions@, singles@)) by {
                assert(singles@.len() == a + 1);
                assert(singles@[a as int]@ == single_snapshot);
                assert(forall|x: int| 0 <= x < a ==> (#[trigger] singles@[x])@ == (
                singles@[x])@);
            }
        }
        a = a + 1;
    }
    // Final global pass: integer powers, quotients and sandwich transforms.
    let mut a2: usize = 0;
    while a2 < nclasses
        invariant
            emissions_ok(emissions@, registry, algebra),
            registry.wf(),
            nclasses == registry.classes@.len(),
            singles@.len() == nclasses,
            pairs@.len() == nclasses,
            forall|x: int| 0 <= x < nclasses ==> table_wf((#[trigger] singles@[x])@),
            forall|x: int| 0 <= x < nclasses ==> (#[trigger] pairs@[x])@.len() == nclasses,
            forall|x: int, y: int|
                0 <= x < nclasses && 0 <= y < nclasses ==> table_wf(
                    (#[trigger] (pairs@[x])@[y])@,
                ),
            forall|x: int|
                0 <= x < nclasses ==> inverse_iff_for(
                    (#[trigger] singles@[x])@,
                    pairs@[x]@,
                    registry,
                ),
            forall|x: int|
                0 <= x < nclasses ==> single_iffs((#[trigger] singles@[x])@, algebra, x, registry),
            forall|x: int|
                0 <= x < nclasses ==> magnitude_iffs(
                    (#[trigger] singles@[x])@,
                    pairs@[x]@,
                    x,
                    registry,
                ),
            forall|x: int, y: int|
                0 <= x < nclasses && 0 <= y < nclasses ==> pair_iffs(
                    (#[trigger] (pairs@[x])@[y])@,
                    algebra,
                    x,
                    y,
                    registry,
                ),
            emissions_track(emissions@, singles@),
        decreases nclasses - a2,
    {
        let parameter_a = Parameter {
            name: VarName::SelfName,
            data_type: DataType::MultiVector(a2),
        };
        let mut b3: usize = 0;
        while b3 < nclasses
            invariant
                emissions_ok(emissions@, registry, algebra),
            emissions_ok(emissions@, registry, algebra),
                registry.wf(),
                a2 < nclasses,
                nclasses == registry.classes@.len(),
                parameter_a.data_type == DataType::MultiVector(a2),
                b3 <= nclasses,
                singles@.len() == nclasses,
                pairs@.len() == nclasses,
                forall|x: int| 0 <= x < nclasses ==> table_wf((#[trigger] singles@[x])@),
                forall|x: int| 0 <= x < nclasses ==> (#[trigger] pairs@[x])@.len() == nclasses,
                forall|x: int, y: int|
                    0 <= x < nclasses && 0 <= y < nclasses ==> table_wf(
                        (#[trigger] (pairs@[x])@[y])@,
                    ),
                forall|x: int|
                    0 <= x < nclasses ==> inverse_iff_for(
                        (#[trigger] singles@[x])@,
                        pairs@[x]@,
                        registry,
                    ),
                forall|x: int|
                    0 <= x < nclasses ==> single_iffs(
                        (#[trigger] singles@[x])@,
                        algebra,
                        x,
                        registry,
                    ),
                forall|x: int|
                    0 <= x < nclasses ==> magnitude_iffs(
                        (#[trigger] singles@[x])@,
                        pairs@[x]@,
                        x,
                        registry,
                    ),
                forall|x: int, y: int|
                    0 <= x < nclasses && 0 <= y < nclasses ==> pair_iffs(
                        (#[trigger] (pairs@[x])@[y])@,
                        algebra,
                        x,
                        y,
                        registry,
                    ),
                emissions_track(emissions@, singles@),
            decreases nclasses - b3,
        {
            let parameter_b = Parameter {
                name: VarName::OtherName,
                data_type: DataType::MultiVector(b3),
            };
            match find_op(&pairs[a2][b3], OperationKind::GeometricProduct) {
                Some(gpi) => {
                    let gp_class = node_result_class(&pairs[a2][b3][gpi].1);
                    // Integer exponentiation for a closed geometric product.
                    if a2 == b3 {
                        match gp_class {
                            Some(rc) => {
                                if rc == a2 {
                                    let one_found = find_op(&singles[a2], OperationKind::One);
                                    let inv_found = find_op(
                                        &singles[a2],
                                        OperationKind::Inverse,
                                    );
                                    match (one_found, inv_found) {
                                        (Some(oi), Some(vi)) => {
                                            let powi = derive_power_of_integer(
                                                &pairs[a2][b3][gpi].1,
                                                &singles[a2][oi].1,
                                                &singles[a2][vi].1,
                                                &parameter_a,
                                                &Parameter {
                                                    name: VarName::Exponent,
                                                    data_type: DataType::Integer,
                                                },
                                            );
                                            if !powi.is_empty_node() {
                                                let ghost ems0 = emissions@;
                                                emissions.push(powi);
                                                proof {
                                                    lemma_emissions_push(ems0, emissions@, registry, algebra);
                                                }
                                            }
                                        },
                                        _ => {},
                                    }
                                }
                            },
                            None => {},
                        }
                    }
                    // Quotient by an invertible right operand.
                    match find_op(&singles[b3], OperationKind::Inverse) {
                        Some(vi) => {
                            let division = derive_division(
                                &pairs[a2][b3][gpi].1,
                                &singles[b3][vi].1,
                                &parameter_a,
                                &parameter_b,
                            );
                            if !division.is_empty_node() {
                                let ghost ems0 = emissions@;
                                emissions.push(division);
                                proof {
                                    lemma_emissions_push(ems0, emissions@, registry, algebra);
                                }
                            }
                        },
                        None => {},
                    }
                    // Sandwich transformation through the product chain.
                    match find_op(&singles[a2], OperationKind::Reversal) {
                        Some(ri) => {
                            match gp_class {
                                Some(r1) => {
                                    if r1 < nclasses {
                                        match find_op(
                                            &pairs[r1][a2],
                                            OperationKind::GeometricProduct,
                                        ) {
                                            Some(g2i) => {
                                                let gp2_class = node_result_class(
                                                    &pairs[r1][a2][g2i].1,
                                                );
                                                match gp2_class {
                                                    Some(r2) => {
                                                        if r2 < nclasses {
                                                            let conv_found = find_op(
                                                                &pairs[r2][b3],
                                                                OperationKind::Into,
                                                            );
                                                            let transformation = match conv_found {
                                                                Some(ci) => derive_sandwich_product(
                                                                    &pairs[a2][b3][gpi].1,
                                                                    &pairs[r1][a2][g2i].1,
                                                                    &singles[a2][ri].1,
                                                                    Some(&pairs[r2][b3][ci].1),
                                                                    &parameter_a,
                                                                    &parameter_b,
                                                                ),
                                                                None => derive_sandwich_product(
                                                                    &pairs[a2][b3][gpi].1,
                                                                    &pairs[r1][a2][g2i].1,
                                                                    &singles[a2][ri].1,
                                                                    None,
                                                                    &parameter_a,
                                                                    &parameter_b,
                                                                ),
                                                            };
                                                            if !transformation.is_empty_node() {
                                                                let ghost ems0 = emissions@;
                                                                emissions.push(transformation);
                                                                proof {
                                                                    lemma_emissions_push(ems0, emissions@, registry, algebra);
                                                                }
                                                            }
                                                        }
                                                    },
                                                    None => {},
                                                }
                                            },
                                            None => {},
                                        }
                                    }
                                },
                                None => {},
                            }
                        },
                        None => {},
                    }
                },
                None => {},
            }
            b3 = b3 + 1;
        }
        a2 = a2 + 1;
    }
    (OperationTables { single: singles, pair: pairs }, emissions)
}

} // verus!
