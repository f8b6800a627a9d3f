use ga_codegen::algebra::BasisElement;
use ga_codegen::algebra::GeometricAlgebra;
use ga_codegen::ast::OperationKind;
use ga_codegen::emit::camel_to_snake_case;
use ga_codegen::emit::cayley_table;
use ga_codegen::emit::emit_element_name;
use ga_codegen::emit::emit_indentation;
use ga_codegen::involution::GradeNegation;
use ga_codegen::involution::Involution;
use ga_codegen::product::Product;

fn euclidean(n: usize) -> GeometricAlgebra {
    GeometricAlgebra { generator_squares: vec![1; n] }
}

fn blade(scalar: i64, index: u16) -> BasisElement {
    BasisElement { scalar, index }
}

#[test]
fn involutions_come_in_their_fixed_order() {
    let algebra = euclidean(3);
    let invs = Involution::involutions(&algebra);
    let kinds: Vec<OperationKind> = invs.iter().map(|p| p.0).collect();
    assert_eq!(
        kinds,
        vec![
            OperationKind::Neg,
            OperationKind::Automorphism,
            OperationKind::Reversal,
            OperationKind::Conjugation,
            OperationKind::Dual,
        ]
    );
    for (_, inv) in invs.iter() {
        assert_eq!(inv.terms.len(), 8);
    }
}

#[test]
fn reversal_twice_is_the_identity_on_every_sign() {
    let algebra = euclidean(4);
    let identity = Involution::identity(&algebra);
    let once = identity.negated(GradeNegation::GradeMod4In23);
    let twice = once.negated(GradeNegation::GradeMod4In23);
    assert_eq!(identity.terms.len(), twice.terms.len());
    for (orig, back) in identity.terms.iter().zip(twice.terms.iter()) {
        assert_eq!(orig, back);
    }
    // And reversion genuinely negates grades 2 and 3.
    for (key, value) in once.terms.iter() {
        let g = key.index.count_ones() % 4;
        if g == 2 || g == 3 {
            assert_eq!(value.scalar, -key.scalar);
        } else {
            assert_eq!(value.scalar, key.scalar);
        }
        assert_eq!(value.index, key.index);
    }
}

#[test]
fn automorphism_negates_odd_grades() {
    let algebra = euclidean(3);
    let auto = Involution::identity(&algebra).negated(GradeNegation::OddGrades);
    for (key, value) in auto.terms.iter() {
        if key.index.count_ones() % 2 == 1 {
            assert_eq!(value.scalar, -key.scalar);
        } else {
            assert_eq!(value.scalar, key.scalar);
        }
    }
}

#[test]
fn seven_products_filter_the_geometric_table() {
    let algebra = euclidean(3);
    let products = Product::products(&algebra);
    assert_eq!(products.len(), 7);
    let kinds: Vec<OperationKind> = products.iter().map(|p| p.0).collect();
    assert_eq!(
        kinds,
        vec![
            OperationKind::GeometricProduct,
            OperationKind::RegressiveProduct,
            OperationKind::OuterProduct,
            OperationKind::InnerProduct,
            OperationKind::LeftContraction,
            OperationKind::RightContraction,
            OperationKind::ScalarProduct,
        ]
    );
    let full = &products[0].1;
    // The full table over the basis has one nonzero term per pair in a
    // nondegenerate algebra.
    assert_eq!(full.terms.len(), 64);
    // Every projected product holds exactly the terms of the full table that
    // satisfy its grade predicate.
    let grades = |t: &ga_codegen::product::ProductTerm| {
        (
            t.factor_a.index.count_ones(),
            t.factor_b.index.count_ones(),
            t.product.index.count_ones(),
        )
    };
    let outer = &products[2].1;
    for t in outer.terms.iter() {
        let (r, s, p) = grades(t);
        assert_eq!(p, r + s);
        assert!(full.terms.contains(t));
    }
    let expected_outer: Vec<_> = full
        .terms
        .iter()
        .filter(|t| {
            let (r, s, p) = grades(t);
            p == r + s
        })
        .cloned()
        .collect();
    assert_eq!(outer.terms, expected_outer);
    let scalar = &products[6].1;
    for t in scalar.terms.iter() {
        assert_eq!(t.product.index, 0);
        assert!(full.terms.contains(t));
    }
    // Restricted to any fixed pair of operand grades, the union of the seven
    // reconstructs exactly the nonzero geometric terms: the geometric product
    // itself is among the seven.
    for t in full.terms.iter() {
        assert!(products.iter().any(|(_, p)| p.terms.contains(t)));
    }
}

#[test]
fn degenerate_generators_drop_terms() {
    let algebra = GeometricAlgebra { generator_squares: vec![0, 1] };
    let products = Product::products(&algebra);
    let full = &products[0].1;
    // Pairs contracting the degenerate generator vanish and are discarded.
    assert!(full.terms.len() < 16);
    for t in full.terms.iter() {
        assert_ne!(t.product.scalar, 0);
    }
}

#[test]
fn regressive_product_dualizes_the_outer_product() {
    let algebra = euclidean(2);
    let products = Product::products(&algebra);
    let outer = &products[2].1;
    let regressive = &products[1].1;
    assert_eq!(outer.terms.len(), regressive.terms.len());
    for (o, r) in outer.terms.iter().zip(regressive.terms.iter()) {
        assert_eq!(r.product, o.product.dual(&algebra));
        assert_eq!(r.factor_a, o.factor_a.dual(&algebra));
        assert_eq!(r.factor_b, o.factor_b.dual(&algebra));
    }
}

#[test]
fn element_names_use_hexadecimal_positions() {
    assert_eq!(emit_element_name(&blade(1, 0)), b"scalar".to_vec());
    assert_eq!(emit_element_name(&blade(1, 0b11)), b"e01".to_vec());
    assert_eq!(emit_element_name(&blade(-1, 0b11)), b"_e01".to_vec());
    assert_eq!(emit_element_name(&blade(1, 1 << 10)), b"eA".to_vec());
}

#[test]
fn display_names_are_signed_blades() {
    assert_eq!(blade(0, 3).display_name(), b"0".to_vec());
    assert_eq!(blade(1, 0).display_name(), b"1".to_vec());
    assert_eq!(blade(-1, 0).display_name(), b"-1".to_vec());
    assert_eq!(blade(1, 0b101).display_name(), b"e02".to_vec());
    assert_eq!(blade(-1, 0b101).display_name(), b"-e02".to_vec());
}

#[test]
fn cayley_cells_that_overflow_render_as_question_marks() {
    let algebra = GeometricAlgebra { generator_squares: vec![i64::MAX, i64::MAX] };
    let basis = algebra.sorted_basis();
    let table = cayley_table(&algebra, &basis);
    // The pseudoscalar squared contracts both huge squares and leaves the
    // scalar range.
    let e01_pos = basis.iter().position(|b| b.index == 3).unwrap();
    assert_eq!(table[e01_pos][e01_pos], b"?".to_vec());
    // The scalar row is untouched.
    assert_eq!(table[0][0], b"1".to_vec());
}

#[test]
fn snake_case_conversion() {
    assert_eq!(camel_to_snake_case("GeometricProduct"), b"geometric_product".to_vec());
    assert_eq!(camel_to_snake_case("ABC"), b"a_b_c".to_vec());
    assert_eq!(camel_to_snake_case("scalar"), b"scalar".to_vec());
    assert_eq!(camel_to_snake_case(""), Vec::<u8>::new());
}

#[test]
fn indentation_is_four_spaces_per_level() {
    assert_eq!(emit_indentation(0), Vec::<u8>::new());
    assert_eq!(emit_indentation(2), b"        ".to_vec());
}

#[test]
fn cayley_table_of_one_generator() {
    let algebra = euclidean(1);
    let basis = algebra.sorted_basis();
    let table = cayley_table(&algebra, &basis);
    // Cell (row, col) renders product(col, row).
    assert_eq!(table.len(), 2);
    assert_eq!(table[0], vec![b"1".to_vec(), b"e0".to_vec()]);
    assert_eq!(table[1], vec![b"e0".to_vec(), b"1".to_vec()]);
}

#[test]
fn cayley_table_of_euclidean_plane() {
    let algebra = euclidean(2);
    let basis = algebra.sorted_basis();
    // The canonical sign convention orients the second basis vector by its
    // dual: the canonical blade for index 2 is -e1.
    assert_eq!(
        basis,
        vec![blade(1, 0), blade(1, 1), blade(-1, 2), blade(1, 3)]
    );
    let table = cayley_table(&algebra, &basis);
    assert_eq!(
        table[0],
        vec![b"1".to_vec(), b"e0".to_vec(), b"-e1".to_vec(), b"e01".to_vec()]
    );
    // Row e0: cells are product(col, e0).
    assert_eq!(
        table[1],
        vec![b"e0".to_vec(), b"1".to_vec(), b"e01".to_vec(), b"-e1".to_vec()]
    );
}
