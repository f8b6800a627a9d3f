use ga_codegen::algebra::BasisElement;
use ga_codegen::algebra::GeometricAlgebra;
use ga_codegen::ast::AstNode;
use ga_codegen::ast::DataType;
use ga_codegen::ast::OperationKind;
use ga_codegen::compile::derive_all;
use ga_codegen::compile::OperationTables;
use ga_codegen::registry::MultiVectorClass;
use ga_codegen::registry::MultiVectorClassRegistry;

fn euclidean(n: usize) -> GeometricAlgebra {
    GeometricAlgebra { generator_squares: vec![1; n] }
}

fn class(name: &str, blades: &[&str], algebra: &GeometricAlgebra) -> MultiVectorClass {
    let group: Vec<BasisElement> = blades
        .iter()
        .map(|b| BasisElement::parse(b, algebra).expect("blade"))
        .collect();
    MultiVectorClass { class_name: name.to_string(), grouped_basis: vec![group] }
}

fn has(table: &Vec<(OperationKind, AstNode)>, k: OperationKind) -> bool {
    table.iter().any(|e| e.0 == k)
}

fn emitted_kinds(emissions: &Vec<AstNode>) -> Vec<OperationKind> {
    emissions
        .iter()
        .filter_map(|n| match n {
            AstNode::TraitImplementation { kind, .. } => Some(*kind),
            _ => None,
        })
        .collect()
}

/// The full Euclidean 3D setup: scalar, rotor (even subalgebra), vector and
/// odd part, so every product lands in a registered class.
fn rotor_setup() -> (GeometricAlgebra, MultiVectorClassRegistry, OperationTables, Vec<AstNode>) {
    let algebra = euclidean(3);
    let mut registry = MultiVectorClassRegistry::new();
    registry.register(class("Scalar", &["1"], &algebra));
    registry.register(class("Rotor", &["1", "e01", "e02", "e12"], &algebra));
    registry.register(class("Vector", &["e0", "e1", "e2"], &algebra));
    registry.register(class("Odd", &["e0", "e1", "e2", "e012"], &algebra));
    let (tables, emissions) = derive_all(&algebra, &registry);
    (algebra, registry, tables, emissions)
}

const SCALAR: usize = 0;
const ROTOR: usize = 1;
const VECTOR: usize = 2;
const ODD: usize = 3;

#[test]
fn rotor_gets_the_full_single_catalogue() {
    let (_, _, tables, _) = rotor_setup();
    let rotor = &tables.single[ROTOR];
    for kind in [
        OperationKind::Zero,
        OperationKind::One,
        OperationKind::Neg,
        OperationKind::Automorphism,
        OperationKind::Reversal,
        OperationKind::Conjugation,
        OperationKind::Dual,
        OperationKind::SquaredMagnitude,
        OperationKind::Magnitude,
        OperationKind::Signum,
        OperationKind::Inverse,
    ] {
        assert!(has(rotor, kind), "rotor lacks {:?}", kind);
    }
    // The scalar class is invertible through the same chain.
    assert!(has(&tables.single[SCALAR], OperationKind::Inverse));
}

#[test]
fn vector_without_scalar_blade_has_no_one() {
    let (_, _, tables, _) = rotor_setup();
    let vector = &tables.single[VECTOR];
    assert!(has(vector, OperationKind::Zero));
    assert!(!has(vector, OperationKind::One));
    assert!(has(vector, OperationKind::Reversal));
}

#[test]
fn rotor_vector_pair_has_a_geometric_product() {
    let (_, _, tables, _) = rotor_setup();
    assert!(has(&tables.pair[ROTOR][VECTOR], OperationKind::GeometricProduct));
    assert!(has(&tables.pair[VECTOR][ROTOR], OperationKind::GeometricProduct));
    assert!(has(&tables.pair[ROTOR][ROTOR], OperationKind::ScalarProduct));
    // The product of a rotor and a vector spans the odd part, not the vector.
    assert!(has(&tables.pair[ODD][VECTOR], OperationKind::Into));
    // A rotor has no blades in common with a vector, so no conversion exists.
    assert!(!has(&tables.pair[ROTOR][VECTOR], OperationKind::Into));
}

#[test]
fn end_to_end_rotor_catalogue_with_transformation_and_quotient() {
    let (_, _, _, emissions) = rotor_setup();
    let kinds = emitted_kinds(&emissions);
    assert!(kinds.contains(&OperationKind::Powi));
    // Transformation(Rotor, Vector): the sandwich by which a rotor acts on a
    // vector.
    let transformation_found = emissions.iter().any(|n| match n {
        AstNode::TraitImplementation { kind, parameters, .. } => {
            *kind == OperationKind::Transformation
                && parameters.len() == 2
                && parameters[0].data_type == DataType::MultiVector(ROTOR)
                && parameters[1].data_type == DataType::MultiVector(VECTOR)
        },
        _ => false,
    });
    assert!(transformation_found);
    // GeometricQuotient(Vector, Rotor).
    let quotient_found = emissions.iter().any(|n| match n {
        AstNode::TraitImplementation { kind, parameters, .. } => {
            *kind == OperationKind::GeometricQuotient
                && parameters.len() == 2
                && parameters[0].data_type == DataType::MultiVector(VECTOR)
                && parameters[1].data_type == DataType::MultiVector(ROTOR)
        },
        _ => false,
    });
    assert!(quotient_found);
}

#[test]
fn removing_the_scalar_class_removes_exactly_the_magnitude_chain() {
    let algebra = euclidean(3);
    let mut registry = MultiVectorClassRegistry::new();
    registry.register(class("Rotor", &["1", "e01", "e02", "e12"], &algebra));
    registry.register(class("Vector", &["e0", "e1", "e2"], &algebra));
    registry.register(class("Odd", &["e0", "e1", "e2", "e012"], &algebra));
    let (tables, emissions) = derive_all(&algebra, &registry);
    let rotor = &tables.single[0];
    // Upstream prerequisite gone: no scalar product result class, hence no
    // squared magnitude, and with it no magnitude, signum or inverse.
    assert!(!has(rotor, OperationKind::SquaredMagnitude));
    assert!(!has(rotor, OperationKind::Magnitude));
    assert!(!has(rotor, OperationKind::Signum));
    assert!(!has(rotor, OperationKind::Inverse));
    // Everything that does not depend on it is still there.
    assert!(has(rotor, OperationKind::Zero));
    assert!(has(rotor, OperationKind::One));
    assert!(has(rotor, OperationKind::Reversal));
    assert!(has(rotor, OperationKind::Dual));
    assert!(has(&tables.pair[0][1], OperationKind::GeometricProduct));
    // And the downstream emissions that need the inverse are gone too.
    let kinds = emitted_kinds(&emissions);
    assert!(!kinds.contains(&OperationKind::Powi));
    assert!(!kinds.contains(&OperationKind::GeometricQuotient));
    assert!(kinds.contains(&OperationKind::Transformation));
}

#[test]
fn inverse_needs_squared_magnitude_and_reversal() {
    // Scalar alone: the scalar class is its own scalar product partner, so
    // the whole chain exists even for the one-class registry.
    let algebra = euclidean(2);
    let mut registry = MultiVectorClassRegistry::new();
    registry.register(class("Scalar", &["1"], &algebra));
    let (tables, _) = derive_all(&algebra, &registry);
    let scalar = &tables.single[0];
    assert!(has(scalar, OperationKind::SquaredMagnitude));
    assert!(has(scalar, OperationKind::Reversal));
    assert!(has(scalar, OperationKind::Inverse));
}

#[test]
fn add_applies_to_identically_shaped_classes_only() {
    let (_, _, tables, _) = rotor_setup();
    assert!(has(&tables.pair[ROTOR][ROTOR], OperationKind::Add));
    assert!(has(&tables.pair[ROTOR][ROTOR], OperationKind::Mul));
    assert!(!has(&tables.pair[ROTOR][VECTOR], OperationKind::Add));
    // Element-wise Mul and Div are attempted only on the diagonal.
    assert!(!has(&tables.pair[VECTOR][ODD], OperationKind::Mul));
}

#[test]
fn registry_deduplicates_by_signature_last_wins() {
    let algebra = euclidean(3);
    let mut registry = MultiVectorClassRegistry::new();
    registry.register(class("First", &["e0", "e1"], &algebra));
    registry.register(class("Second", &["e0", "e1"], &algebra));
    assert_eq!(registry.classes.len(), 2);
    let signature = registry.classes[0].signature();
    let found = registry.get(&signature).expect("registered signature");
    assert_eq!(found.class_name, "Second");
    let missing = registry.get(&vec![9u16]);
    assert!(missing.is_none());
}

#[test]
fn emissions_start_with_preamble_and_class_definitions() {
    let (_, _, _, emissions) = rotor_setup();
    assert_eq!(emissions[0], AstNode::Preamble);
    for c in 0..4usize {
        assert_eq!(emissions[1 + c], AstNode::ClassDefinition { class: c });
    }
    // No empty sentinel is ever emitted.
    for node in emissions.iter() {
        assert!(*node != AstNode::Empty);
    }
}
