//! The backend-neutral intermediate representation.
//!
//! Every derived operation is expressed as a tree of expressions and
//! statements, built bottom-up and never mutated.  Construction is pure:
//! identical algebraic inputs produce structurally equal trees, and the
//! orchestration layer compares a produced node against the empty sentinel to
//! decide that an operation does not apply.  Multivector classes are referred
//! to by their registry index; operations by a closed enumeration of kinds.

use vstd::prelude::*;
use crate::registry::MultiVectorClassRegistry;

verus! {

/// The closed set of operation names the derivation engine can emit.
#[derive(Clone, Copy, PartialEq, Eq, Structural, Debug)]
pub enum OperationKind {
    Zero,
    One,
    Neg,
    Automorphism,
    Reversal,
    Conjugation,
    Dual,
    Into,
    Add,
    Sub,
    Mul,
    Div,
    GeometricProduct,
    RegressiveProduct,
    OuterProduct,
    InnerProduct,
    LeftContraction,
    RightContraction,
    ScalarProduct,
    SquaredMagnitude,
    Magnitude,
    Scale,
    Signum,
    Inverse,
    Powi,
    GeometricQuotient,
    Transformation,
    Constructor,
}

/// The closed set of variable names used inside generated operations.
#[derive(Clone, Copy, PartialEq, Eq, Structural, Debug)]
pub enum VarName {
    SelfName,
    OtherName,
    Exponent,
    Base,
    Accum,
    Counter,
    Limit,
}

/// Type of an expression: a plain integer, a fixed-width lane vector, or a
/// multivector class referred to by registry index.
#[derive(Clone, Copy, PartialEq, Eq, Structural, Debug)]
pub enum DataType {
    Integer,
    SimdVector(usize),
    MultiVector(usize),
}

/// Expression node contents.
#[derive(PartialEq, Eq, Debug)]
pub enum ExpressionContent {
    /// The empty sentinel: the expression that is not there.
    Empty,
    /// A named value of the given type.
    Variable(DataType, VarName),
    /// Invocation of a class-scoped operation, with typed arguments.
    InvokeClassMethod(usize, OperationKind, Vec<(DataType, Expression)>),
    /// Invocation of an instance-scoped operation: return type, instance,
    /// operation, object type, typed arguments.
    InvokeInstanceMethod(DataType, Box<Expression>, OperationKind, DataType, Vec<(DataType, Expression)>),
    /// Explicit conversion between two classes.
    Conversion(usize, usize, Box<Expression>),
    /// Ternary selection.
    Select(Box<Expression>, Box<Expression>, Box<Expression>),
    /// Single-lane access.
    Access(Box<Expression>, usize),
    /// Lane reordering.
    Swizzle(Box<Expression>, Vec<usize>),
    /// Multi-source gather: (source group, lane) pairs assembling a result
    /// from a class's internal grouping.
    Gather(Box<Expression>, Vec<(usize, usize)>),
    /// Literal constant lanes.
    Constant(DataType, Vec<i64>),
    SquareRoot(Box<Expression>),
    Add(Box<Expression>, Box<Expression>),
    Subtract(Box<Expression>, Box<Expression>),
    Multiply(Box<Expression>, Box<Expression>),
    Divide(Box<Expression>, Box<Expression>),
    LessThan(Box<Expression>, Box<Expression>),
    Equal(Box<Expression>, Box<Expression>),
    LogicAnd(Box<Expression>, Box<Expression>),
    BitShiftRight(Box<Expression>, Box<Expression>),
}

/// An expression: its result width (1 is scalar-like) and its content.
#[derive(PartialEq, Eq, Debug)]
pub struct Expression {
    pub size: usize,
    pub content: ExpressionContent,
}

/// A parameter of a generated operation.
#[derive(Clone, Copy, PartialEq, Eq, Structural, Debug)]
pub struct Parameter {
    pub name: VarName,
    pub data_type: DataType,
}

/// Statement-level nodes; `TraitImplementation` is the unit the derivation
/// engine emits once per synthesized operation.
#[derive(PartialEq, Eq, Debug)]
pub enum AstNode {
    /// The empty sentinel: the operation that does not apply.
    Empty,
    Preamble,
    ClassDefinition { class: usize },
    ReturnStatement { expression: Box<Expression> },
    VariableAssignment { name: VarName, data_type: Option<DataType>, expression: Box<Expression> },
    IfThenBlock { condition: Box<Expression>, body: Vec<AstNode> },
    WhileLoopBlock { condition: Box<Expression>, body: Vec<AstNode> },
    TraitImplementation {
        kind: OperationKind,
        result: Parameter,
        parameters: Vec<Parameter>,
        body: Vec<AstNode>,
    },
}

impl DataType {
    /// A class index inside the type points into the registry.
    pub open spec fn valid(&self, registry: &MultiVectorClassRegistry) -> bool {
        match *self {
            DataType::MultiVector(ix) => ix < registry.classes@.len(),
            _ => true,
        }
    }

    /// Whether the type represents a scalar value.
    pub open spec fn is_scalar_spec(&self, registry: &MultiVectorClassRegistry) -> bool {
        match *self {
            DataType::Integer => false,
            DataType::SimdVector(size) => size == 1,
            DataType::MultiVector(ix) => registry.classes@[ix as int].is_scalar_spec(),
        }
    }

    /// Determines if the data type represents a scalar value.
    pub fn is_scalar(&self, registry: &MultiVectorClassRegistry) -> (r: bool)
        requires
            self.valid(registry),
        ensures
            r == self.is_scalar_spec(registry),
    {
        match *self {
            DataType::Integer => false,
            DataType::SimdVector(size) => size == 1,
            DataType::MultiVector(ix) => registry.classes[ix].is_scalar(),
        }
    }
}

impl Expression {
    /// The sentinel test.
    pub open spec fn is_empty_spec(&self) -> bool {
        self.content is Empty
    }

    /// Whether the expression is scalar: width one, and either a variable of
    /// scalar type or an instance invocation on a scalar object type; other
    /// expressions are conservatively non-scalar.
    pub open spec fn is_scalar_expr_spec(&self, registry: &MultiVectorClassRegistry) -> bool {
        if self.size > 1 {
            false
        } else {
            match self.content {
                ExpressionContent::Variable(dt, _) => dt.is_scalar_spec(registry),
                ExpressionContent::InvokeInstanceMethod(_, _, _, dt, _) => dt.is_scalar_spec(
                    registry,
                ),
                _ => false,
            }
        }
    }

    /// Determines if an expression is scalar.
    pub fn is_scalar(&self, registry: &MultiVectorClassRegistry) -> (r: bool)
        requires
            match self.content {
                ExpressionContent::Variable(dt, _) => dt.valid(registry),
                ExpressionContent::InvokeInstanceMethod(_, _, _, dt, _) => dt.valid(registry),
                _ => true,
            },
        ensures
            r == self.is_scalar_expr_spec(registry),
    {
        if self.size > 1 {
            return false;
        }
        match &self.content {
            ExpressionContent::Variable(dt, _) => dt.is_scalar(registry),
            ExpressionContent::InvokeInstanceMethod(_, _, _, dt, _) => dt.is_scalar(registry),
            _ => false,
        }
    }
}

impl AstNode {
    /// The sentinel test: the orchestration layer skips empty nodes.
    pub open spec fn is_empty_spec(&self) -> bool {
        *self is Empty
    }

    /// True iff this node is the empty sentinel.
    pub fn is_empty_node(&self) -> (r: bool)
        ensures
            r == self.is_empty_spec(),
    {
        match self {
            AstNode::Empty => true,
            _ => false,
        }
    }
}

impl Parameter {
    /// The registry index of a multivector-typed parameter.
    pub fn multi_vector_class(&self) -> (r: usize)
        requires
            self.data_type is MultiVector,
        ensures
            self.data_type == DataType::MultiVector(r),
    {
        match self.data_type {
            DataType::MultiVector(ix) => ix,
            _ => {
                proof {
                    assert(false);
                }
                0
            },
        }
    }
}

} // verus!
