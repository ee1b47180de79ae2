use vstd::prelude::*;

use crate::errors::EvaluationError;
use crate::ast::Operator;
use crate::matrix::{dot, grid_dot, grid_of, has_shape, inverse, lemma_dot_grid, operator_value, Matrix};
use crate::scalar::Scalar;

verus! {

/// A value during evaluation: a number, a matrix, or a variable that has
/// not been looked up yet.
#[derive(Debug, Clone)]
pub enum RuntimeVal<T> {
    Variable(String),
    Scalar(T),
    Matrix(Matrix<T>),
}

/// A number or a well formed matrix: a value that arithmetic accepts.
pub open spec fn is_resolved<T>(v: RuntimeVal<T>) -> bool {
    match v {
        RuntimeVal::Variable(_) => false,
        RuntimeVal::Scalar(_) => true,
        RuntimeVal::Matrix(m) => m.wf(),
    }
}

/// `(rows, columns)` of a matrix, as reported in errors.
pub open spec fn dims<T>(m: Matrix<T>) -> (usize, usize) {
    (m.spec_nrows() as usize, m.spec_ncols() as usize)
}

/// `r` is a matrix of `rows` by `cols`.
pub open spec fn is_matrix_of<T>(r: RuntimeVal<T>, rows: nat, cols: nat) -> bool {
    r matches RuntimeVal::Matrix(m) && has_shape(m, rows, cols)
}

/// The outcome of `+` or `-`: numbers give a number; a number and a matrix
/// give a matrix of that shape; two matrices must have one shape.
pub open spec fn additive_outcome<T>(l: RuntimeVal<T>, r: RuntimeVal<T>, out: Result<RuntimeVal<T>, EvaluationError>) -> bool {
    match (l, r) {
        (RuntimeVal::Scalar(_), RuntimeVal::Scalar(_)) => out matches Ok(RuntimeVal::Scalar(_)),
        (RuntimeVal::Matrix(a), RuntimeVal::Matrix(b)) => if dims(a) == dims(b) {
            out matches Ok(v) && is_matrix_of(v, a.spec_nrows(), a.spec_ncols())
        } else {
            out == Err::<RuntimeVal<T>, EvaluationError>(EvaluationError::DimensionsMismatch(dims(a), dims(b)))
        },
        (RuntimeVal::Matrix(a), RuntimeVal::Scalar(_)) => out matches Ok(v) && is_matrix_of(v, a.spec_nrows(), a.spec_ncols()),
        (RuntimeVal::Scalar(_), RuntimeVal::Matrix(b)) => out matches Ok(v) && is_matrix_of(v, b.spec_nrows(), b.spec_ncols()),
        _ => false,
    }
}

/// The outcome of `*`: two matrices must chain (columns of the left equal
/// rows of the right, and the product small enough to store) and give a
/// rows-of-left by columns-of-right matrix.
pub open spec fn product_outcome<T>(l: RuntimeVal<T>, r: RuntimeVal<T>, out: Result<RuntimeVal<T>, EvaluationError>) -> bool {
    match (l, r) {
        (RuntimeVal::Matrix(a), RuntimeVal::Matrix(b)) => if a.spec_ncols() == b.spec_nrows() && a.spec_nrows()
            * b.spec_ncols() <= usize::MAX {
            out matches Ok(v) && is_matrix_of(v, a.spec_nrows(), b.spec_ncols())
        } else {
            out == Err::<RuntimeVal<T>, EvaluationError>(EvaluationError::DimensionsMismatch(dims(a), dims(b)))
        },
        _ => additive_outcome(l, r, out),
    }
}

/// The outcome of `/`: a matrix divisor must be square, of the dividend's
/// shape, and invertible (`inverse`); the quotient is the dividend times
/// that inverse.
pub open spec fn quotient_outcome<T: Scalar>(l: RuntimeVal<T>, r: RuntimeVal<T>, out: Result<RuntimeVal<T>, EvaluationError>) -> bool {
    match (l, r) {
        (RuntimeVal::Matrix(a), RuntimeVal::Matrix(b)) => if b.spec_nrows() != b.spec_ncols() {
            out == Err::<RuntimeVal<T>, EvaluationError>(EvaluationError::NoninvertibleDivisorMatrix)
        } else if dims(a) != dims(b) {
            out == Err::<RuntimeVal<T>, EvaluationError>(EvaluationError::DimensionsMismatch(dims(a), dims(b)))
        } else {
            match inverse(b) {
                None => out == Err::<RuntimeVal<T>, EvaluationError>(EvaluationError::NoninvertibleDivisorMatrix),
                Some(g) => match out {
                    Ok(RuntimeVal::Matrix(m)) => has_shape(m, a.spec_nrows(), a.spec_ncols()) && forall|i: int, j: int|
                        0 <= i < a.spec_nrows() && 0 <= j < a.spec_ncols() ==> #[trigger] m.cell(i, j) == grid_dot(
                            grid_of(a),
                            g,
                            i,
                            j,
                            a.spec_ncols() as int,
                        ),
                    _ => false,
                },
            }
        },
        _ => additive_outcome(l, r, out),
    }
}

/// The values that an arithmetic operator gives: the operator on two
/// numbers; on each cell with a number (for `+` and `*` the cell stays on
/// the left whichever side the number is on, as `+` and `*` are applied to
/// a matrix); cell by cell for `+` and `-` on two matrices; and the matrix
/// product (`dot`) for `*` on two matrices.
pub open spec fn value_outcome<T: Scalar>(
    op: Operator,
    l: RuntimeVal<T>,
    r: RuntimeVal<T>,
    out: Result<RuntimeVal<T>, EvaluationError>,
) -> bool {
    match (l, r) {
        (RuntimeVal::Scalar(a), RuntimeVal::Scalar(b)) => out == Ok::<RuntimeVal<T>, EvaluationError>(
            RuntimeVal::Scalar(operator_value(op, a, b)),
        ),
        (RuntimeVal::Matrix(a), RuntimeVal::Scalar(x)) => match out {
            Ok(RuntimeVal::Matrix(m)) => forall|i: int, j: int|
                0 <= i < a.spec_nrows() && 0 <= j < a.spec_ncols() ==> #[trigger] m.cell(i, j) == operator_value(
                    op,
                    a.cell(i, j),
                    x,
                ),
            _ => true,
        },
        (RuntimeVal::Scalar(x), RuntimeVal::Matrix(b)) => match out {
            Ok(RuntimeVal::Matrix(m)) => forall|i: int, j: int|
                0 <= i < b.spec_nrows() && 0 <= j < b.spec_ncols() ==> #[trigger] m.cell(i, j) == if op
                    == Operator::Add || op == Operator::Multiply {
                    operator_value(op, b.cell(i, j), x)
                } else {
                    operator_value(op, x, b.cell(i, j))
                },
            _ => true,
        },
        (RuntimeVal::Matrix(a), RuntimeVal::Matrix(b)) => match out {
            Ok(RuntimeVal::Matrix(m)) => if op == Operator::Add || op == Operator::Subtract {
                forall|i: int, j: int|
                    0 <= i < a.spec_nrows() && 0 <= j < a.spec_ncols() ==> #[trigger] m.cell(i, j)
                        == operator_value(op, a.cell(i, j), b.cell(i, j))
            } else if op == Operator::Multiply {
                forall|i: int, j: int|
                    0 <= i < a.spec_nrows() && 0 <= j < b.spec_ncols() ==> #[trigger] m.cell(i, j) == dot(
                        a,
                        b,
                        i,
                        j,
                        a.spec_ncols() as int,
                    )
            } else {
                true
            },
            _ => true,
        },
        _ => true,
    }
}

/// Every outcome of an operation on resolved values is a resolved value or
/// an error.
pub open spec fn resolved_outcome<T>(out: Result<RuntimeVal<T>, EvaluationError>) -> bool {
    out matches Ok(v) ==> is_resolved(v)
}

impl<T: Scalar> RuntimeVal<T> {
    /// `self + rhs`
    pub fn try_add(self, rhs: Self) -> (r: Result<Self, EvaluationError>)
        requires
            is_resolved(self),
            is_resolved(rhs),
        ensures
            additive_outcome(self, rhs, r),
            resolved_outcome(r),
            value_outcome(Operator::Add, self, rhs, r),
    {
        match (self, rhs) {
            (RuntimeVal::Scalar(l), RuntimeVal::Scalar(r)) => Ok(RuntimeVal::Scalar(l.plus(r))),
            (RuntimeVal::Matrix(l), RuntimeVal::Matrix(r)) => {
                if l.height() != r.height() || l.width() != r.width() {
                    return Err(EvaluationError::DimensionsMismatch(l.get_shape(), r.get_shape()));
                }
                Ok(RuntimeVal::Matrix(l.add_matrix(&r)))
            },
            (RuntimeVal::Matrix(m), RuntimeVal::Scalar(n)) => Ok(RuntimeVal::Matrix(m.add_scalar(n))),
            (RuntimeVal::Scalar(n), RuntimeVal::Matrix(m)) => Ok(RuntimeVal::Matrix(m.add_scalar(n))),
            (RuntimeVal::Variable(_), _) => Err(EvaluationError::InvalidArithmaticExpression),
            (_, RuntimeVal::Variable(_)) => Err(EvaluationError::InvalidArithmaticExpression),
        }
    }

    /// `self - rhs`
    pub fn try_sub(self, rhs: Self) -> (r: Result<Self, EvaluationError>)
        requires
            is_resolved(self),
            is_resolved(rhs),
        ensures
            additive_outcome(self, rhs, r),
            resolved_outcome(r),
            value_outcome(Operator::Subtract, self, rhs, r),
    {
        match (self, rhs) {
            (RuntimeVal::Scalar(l), RuntimeVal::Scalar(r)) => Ok(RuntimeVal::Scalar(l.minus(r))),
            (RuntimeVal::Matrix(l), RuntimeVal::Matrix(r)) => {
                if l.height() != r.height() || l.width() != r.width() {
                    return Err(EvaluationError::DimensionsMismatch(l.get_shape(), r.get_shape()));
                }
                Ok(RuntimeVal::Matrix(l.sub_matrix(&r)))
            },
            (RuntimeVal::Matrix(m), RuntimeVal::Scalar(n)) => Ok(RuntimeVal::Matrix(m.sub_scalar(n))),
            (RuntimeVal::Scalar(n), RuntimeVal::Matrix(m)) => Ok(RuntimeVal::Matrix(m.scalar_sub(n))),
            (RuntimeVal::Variable(_), _) => Err(EvaluationError::InvalidArithmaticExpression),
            (_, RuntimeVal::Variable(_)) => Err(EvaluationError::InvalidArithmaticExpression),
        }
    }

    /// `self * rhs`
    pub fn try_mul(self, rhs: Self) -> (r: Result<Self, EvaluationError>)
        requires
            is_resolved(self),
            is_resolved(rhs),
        ensures
            product_outcome(self, rhs, r),
            resolved_outcome(r),
            value_outcome(Operator::Multiply, self, rhs, r),
    {
        match (self, rhs) {
            (RuntimeVal::Scalar(l), RuntimeVal::Scalar(r)) => Ok(RuntimeVal::Scalar(l.times(r))),
            (RuntimeVal::Matrix(l), RuntimeVal::Matrix(r)) => {
                if l.width() != r.height() {
                    return Err(EvaluationError::DimensionsMismatch(l.get_shape(), r.get_shape()));
                }
                match l.height().checked_mul(r.width()) {
                    Some(_) => Ok(RuntimeVal::Matrix(l.mul_matrix(&r))),
                    None => Err(EvaluationError::DimensionsMismatch(l.get_shape(), r.get_shape())),
                }
            },
            (RuntimeVal::Matrix(m), RuntimeVal::Scalar(n)) => Ok(RuntimeVal::Matrix(m.mul_scalar(n))),
            (RuntimeVal::Scalar(n), RuntimeVal::Matrix(m)) => Ok(RuntimeVal::Matrix(m.mul_scalar(n))),
            (RuntimeVal::Variable(_), _) => Err(EvaluationError::InvalidArithmaticExpression),
            (_, RuntimeVal::Variable(_)) => Err(EvaluationError::InvalidArithmaticExpression),
        }
    }

    /// `self / rhs`; dividing by a matrix multiplies by its inverse.
    pub fn try_div(self, rhs: Self) -> (r: Result<Self, EvaluationError>)
        requires
            is_resolved(self),
            is_resolved(rhs),
        ensures
            quotient_outcome(self, rhs, r),
            resolved_outcome(r),
            value_outcome(Operator::Divide, self, rhs, r),
    {
        match (self, rhs) {
            (RuntimeVal::Scalar(l), RuntimeVal::Scalar(r)) => Ok(RuntimeVal::Scalar(l.over(r))),
            (RuntimeVal::Matrix(l), RuntimeVal::Matrix(r)) => {
                if !r.is_square() {
                    return Err(EvaluationError::NoninvertibleDivisorMatrix);
                }
                if l.height() != r.height() || l.width() != r.width() {
                    return Err(EvaluationError::DimensionsMismatch(l.get_shape(), r.get_shape()));
                }
                // a square divisor's cell count bounds the size of its inverse
                let _cells = r.cell_count();
                let ghost divisor = r;
                match r.try_invert() {
                    Some(inv) => {
                        let q = l.mul_matrix(&inv);
                        proof {
                            let g = inverse(divisor)->0;
                            assert forall|i: int, j: int|
                                0 <= i < l.spec_nrows() && 0 <= j < l.spec_ncols() implies #[trigger] q.cell(i, j)
                                    == grid_dot(grid_of(l), g, i, j, l.spec_ncols() as int) by {
                                lemma_dot_grid(l, inv, g, i, j, l.spec_ncols() as int);
                            }
                        }
                        Ok(RuntimeVal::Matrix(q))
                    },
                    None => Err(EvaluationError::NoninvertibleDivisorMatrix),
                }
            },
            (RuntimeVal::Matrix(m), RuntimeVal::Scalar(n)) => Ok(RuntimeVal::Matrix(m.div_scalar(n))),
            (RuntimeVal::Scalar(n), RuntimeVal::Matrix(m)) => Ok(RuntimeVal::Matrix(m.scalar_div(n))),
            (RuntimeVal::Variable(_), _) => Err(EvaluationError::InvalidArithmaticExpression),
            (_, RuntimeVal::Variable(_)) => Err(EvaluationError::InvalidArithmaticExpression),
        }
    }
}

} // verus!

verus! {

/// What a runtime value denotes: a variable's name, a number, or a matrix
/// as rows, columns and cells.
pub enum Value<T> {
    Variable(Seq<char>),
    Scalar(T),
    Matrix((nat, nat, Seq<T>)),
}

impl<T> View for RuntimeVal<T> {
    type V = Value<T>;

    open spec fn view(&self) -> Value<T> {
        match self {
            RuntimeVal::Variable(name) => Value::Variable(name@),
            RuntimeVal::Scalar(n) => Value::Scalar(*n),
            RuntimeVal::Matrix(m) => Value::Matrix(m@),
        }
    }
}

impl<T: Scalar> RuntimeVal<T> {
    /// A copy of the value.
    pub fn duplicate(&self) -> (r: Self)
        requires
            self matches RuntimeVal::Matrix(m) ==> m.wf(),
        ensures
            r@ == self@,
            is_resolved(r) == is_resolved(*self),
            r matches RuntimeVal::Matrix(m) ==> m.wf(),
    {
        match self {
            RuntimeVal::Variable(name) => RuntimeVal::Variable(name.clone()),
            RuntimeVal::Scalar(n) => RuntimeVal::Scalar(*n),
            RuntimeVal::Matrix(m) => RuntimeVal::Matrix(m.duplicate()),
        }
    }
}

} // verus!
