use ga_codegen::algebra::AlgebraError;
use ga_codegen::algebra::BasisElement;
use ga_codegen::algebra::GeometricAlgebra;

fn euclidean(n: usize) -> GeometricAlgebra {
    GeometricAlgebra { generator_squares: vec![1; n] }
}

fn blade(scalar: i64, index: u16) -> BasisElement {
    BasisElement { scalar, index }
}

#[test]
fn basis_size_is_a_power_of_two() {
    assert_eq!(euclidean(0).basis_size(), 1);
    assert_eq!(euclidean(1).basis_size(), 2);
    assert_eq!(euclidean(3).basis_size(), 8);
    assert_eq!(euclidean(4).basis_size(), 16);
}

#[test]
fn sorted_basis_of_euclidean_3d() {
    let algebra = euclidean(3);
    let basis = algebra.sorted_basis();
    let expected = vec![
        blade(1, 0),
        blade(1, 1),
        blade(1, 2),
        blade(1, 4),
        blade(1, 3),
        blade(-1, 5),
        blade(1, 6),
        blade(1, 7),
    ];
    assert_eq!(basis, expected);
}

#[test]
fn sorted_basis_blades_are_distinct_units() {
    let algebra = euclidean(4);
    let basis = algebra.sorted_basis();
    assert_eq!(basis.len(), 16);
    for (i, a) in basis.iter().enumerate() {
        assert!(a.scalar == 1 || a.scalar == -1);
        for b in basis.iter().skip(i + 1) {
            assert_ne!(a.index, b.index);
        }
    }
}

#[test]
fn generator_squares_come_back_from_products() {
    let algebra = GeometricAlgebra { generator_squares: vec![0, -1, 1] };
    for i in 0..3u16 {
        let e = BasisElement::from_index(1 << i);
        let p = BasisElement::product(&e, &e, &algebra);
        assert_eq!(p.index, 0);
        assert_eq!(p.scalar, algebra.generator_squares[i as usize]);
    }
}

#[test]
fn product_of_distinct_generators_anticommutes() {
    let algebra = euclidean(3);
    let e1 = BasisElement::from_index(1);
    let e2 = BasisElement::from_index(2);
    let p12 = BasisElement::product(&e1, &e2, &algebra);
    let p21 = BasisElement::product(&e2, &e1, &algebra);
    assert_eq!(p12, blade(1, 3));
    assert_eq!(p21, blade(-1, 3));
}

#[test]
fn product_is_associative_over_the_whole_basis() {
    let algebra = GeometricAlgebra { generator_squares: vec![0, 1, -1] };
    for ai in 0..8u16 {
        for bi in 0..8u16 {
            for ci in 0..8u16 {
                let a = BasisElement::from_index(ai);
                let b = BasisElement::from_index(bi);
                let c = BasisElement::from_index(ci);
                let ab = BasisElement::product(&a, &b, &algebra);
                let bc = BasisElement::product(&b, &c, &algebra);
                let left = BasisElement::product(&ab, &c, &algebra);
                let right = BasisElement::product(&a, &bc, &algebra);
                assert_eq!(left, right);
            }
        }
    }
}

#[test]
fn product_is_associative_for_weighted_blades() {
    let algebra = GeometricAlgebra { generator_squares: vec![1, -1, 0] };
    let a = blade(2, 0b011);
    let b = blade(-3, 0b110);
    let c = blade(5, 0b101);
    let ab = BasisElement::product(&a, &b, &algebra);
    let bc = BasisElement::product(&b, &c, &algebra);
    let left = BasisElement::product(&ab, &c, &algebra);
    let right = BasisElement::product(&a, &bc, &algebra);
    assert_eq!(left, right);
}

#[test]
fn double_dual_is_the_identity_in_three_dimensions() {
    let algebra = euclidean(3);
    for i in 0..8u16 {
        let e = blade(1, i);
        let dd = e.dual(&algebra).dual(&algebra);
        assert_eq!(dd, e);
    }
}

#[test]
fn double_dual_flips_vectors_in_two_dimensions() {
    let algebra = euclidean(2);
    let e1 = BasisElement::from_index(1);
    let dd = e1.dual(&algebra).dual(&algebra);
    assert_eq!(dd, blade(-1, 1));
    let scalar_blade = BasisElement::from_index(0);
    assert_eq!(scalar_blade.dual(&algebra).dual(&algebra), scalar_blade);
}

#[test]
fn grade_counts_generators() {
    assert_eq!(blade(1, 0).grade(), 0);
    assert_eq!(blade(1, 0b101).grade(), 2);
    assert_eq!(blade(1, 0b1111).grade(), 4);
}

#[test]
fn component_bits_lists_positions_in_order() {
    assert_eq!(blade(1, 0b1011).component_bits(), vec![0, 1, 3]);
    assert_eq!(blade(1, 0).component_bits(), Vec::<usize>::new());
}

#[test]
fn canonical_order_sorts_by_grade_then_lowest_differing_bit() {
    // Grade first.
    assert!(BasisElement::canonical_lt(&blade(1, 1), &blade(1, 3)));
    assert!(!BasisElement::canonical_lt(&blade(1, 3), &blade(1, 1)));
    // Equal grades: the side owning the lowest differing bit comes first.
    assert!(BasisElement::canonical_lt(&blade(1, 0b011), &blade(1, 0b101)));
    assert!(BasisElement::canonical_lt(&blade(1, 0b101), &blade(1, 0b110)));
    // Irreflexive.
    assert!(!BasisElement::canonical_lt(&blade(1, 5), &blade(1, 5)));
}

#[test]
fn parse_scalar_blades() {
    let algebra = euclidean(3);
    assert_eq!(BasisElement::parse("1", &algebra), Ok(blade(1, 0)));
    assert_eq!(BasisElement::parse("-1", &algebra), Ok(blade(-1, 0)));
}

#[test]
fn parse_builds_blades_by_repeated_products() {
    let algebra = euclidean(3);
    assert_eq!(BasisElement::parse("e0", &algebra), Ok(blade(1, 1)));
    assert_eq!(BasisElement::parse("e01", &algebra), Ok(blade(1, 3)));
    // Digit order affects the sign through the commutation rule.
    assert_eq!(BasisElement::parse("e10", &algebra), Ok(blade(-1, 3)));
    assert_eq!(BasisElement::parse("e012", &algebra), Ok(blade(1, 7)));
    // A repeated digit contracts through the generator square.
    assert_eq!(BasisElement::parse("e00", &algebra), Ok(blade(1, 0)));
}

#[test]
fn parse_minus_prefix_negates() {
    // Four generators so that the digits 1 and 3 name generators.
    let algebra = euclidean(4);
    let e1 = BasisElement::from_index(1 << 1);
    let e3 = BasisElement::from_index(1 << 3);
    let product = BasisElement::product(&e1, &e3, &algebra);
    let negated = blade(-product.scalar, product.index);
    assert_eq!(BasisElement::parse("-e13", &algebra), Ok(negated));
    assert_eq!(negated.index, (1 << 1) | (1 << 3));
}

#[test]
fn parse_rejects_out_of_range_digits() {
    let algebra = euclidean(3);
    assert_eq!(BasisElement::parse("e3", &algebra), Err(AlgebraError::DigitOutOfRange));
    assert_eq!(BasisElement::parse("-e13", &algebra), Err(AlgebraError::DigitOutOfRange));
}

#[test]
fn parse_rejects_malformed_tokens() {
    let algebra = euclidean(3);
    assert_eq!(BasisElement::parse("", &algebra), Err(AlgebraError::BadSyntax));
    assert_eq!(BasisElement::parse("-", &algebra), Err(AlgebraError::BadSyntax));
    assert_eq!(BasisElement::parse("x1", &algebra), Err(AlgebraError::BadSyntax));
    assert_eq!(BasisElement::parse("e0z", &algebra), Err(AlgebraError::BadSyntax));
    assert_eq!(BasisElement::parse("12", &algebra), Err(AlgebraError::BadSyntax));
}

#[test]
fn parse_reports_overflow() {
    // A huge square pumped through repeated contraction overflows the scalar.
    let algebra = GeometricAlgebra { generator_squares: vec![i64::MAX] };
    assert_eq!(
        BasisElement::parse("e00000", &algebra),
        Err(AlgebraError::Overflow)
    );
}

#[test]
fn try_product_reports_overflow() {
    let algebra = GeometricAlgebra { generator_squares: vec![i64::MAX] };
    let big = blade(i64::MAX, 1);
    let other = blade(2, 0);
    assert_eq!(BasisElement::try_product(&big, &other, &algebra), None);
    let fine = BasisElement::try_product(&blade(2, 1), &blade(3, 0), &algebra);
    assert_eq!(fine, Some(blade(6, 1)));
}
