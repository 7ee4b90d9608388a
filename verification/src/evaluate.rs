//! Evaluation of an expression tree against a read-only snapshot of the
//! sheet.

use vstd::prelude::*;
use crate::ast::{spec_references, Expr, Opcode};
use crate::cell::{CellModel, Sheet};
use crate::reference::Reference;
use crate::value::{result_view, EvaluationError, EvaluationResult, Value, ValueModel};

verus! {

/// The value an evaluation reads for a referenced cell: a cell absent from
/// the sheet reads as the empty value; a present cell contributes its
/// stored value or error as-is.
pub open spec fn spec_cell_value(cells: Map<Reference, CellModel>, r: Reference) -> Result<
    ValueModel,
    EvaluationError,
> {
    if cells.dom().contains(r) {
        cells[r].value
    } else {
        Ok(ValueModel::Empty)
    }
}

/// Coercion applied to each operand of a binary operator: an empty operand
/// becomes integer zero; everything else is left as-is.
pub open spec fn spec_coerce(v: ValueModel) -> ValueModel {
    match v {
        ValueModel::Empty => ValueModel::Integer(0),
        _ => v,
    }
}

/// A binary operator applied to two coerced operands. Integer arithmetic
/// wraps on 64-bit overflow; division truncates toward zero and reports a
/// zero divisor before dividing. Any non-integer operand, notably text, is
/// an incompatible-types error.
pub open spec fn spec_apply(op: Opcode, x: ValueModel, y: ValueModel) -> Result<
    ValueModel,
    EvaluationError,
> {
    match (x, y) {
        (ValueModel::Integer(a), ValueModel::Integer(b)) => match op {
            Opcode::Add => Ok(ValueModel::Integer(a.wrapping_add(b))),
            Opcode::Sub => Ok(ValueModel::Integer(a.wrapping_sub(b))),
            Opcode::Mul => Ok(ValueModel::Integer(a.wrapping_mul(b))),
            Opcode::Div => if b == 0 {
                Err(EvaluationError::DivisionByZero)
            } else {
                match a.checked_div(b) {
                    Some(q) => Ok(ValueModel::Integer(q)),
                    None => Ok(ValueModel::Integer(i64::MIN)),
                }
            },
        },
        _ => Err(EvaluationError::IncompatibleTypes),
    }
}

/// What an expression evaluates to against a sheet snapshot: literals give
/// their value, references read the cell, and a binary operation evaluates
/// its operands left to right, short-circuiting on the first error, then
/// coerces and applies the operator.
pub open spec fn spec_evaluate(e: Expr, cells: Map<Reference, CellModel>) -> Result<
    ValueModel,
    EvaluationError,
> decreases e,
{
    match e {
        Expr::Literal(x) => Ok(ValueModel::Integer(x)),
        Expr::Reference(r) => spec_cell_value(cells, r),
        Expr::Op(l, op, r) => match spec_evaluate(*l, cells) {
            Err(e1) => Err(e1),
            Ok(xl) => match spec_evaluate(*r, cells) {
                Err(e2) => Err(e2),
                Ok(xr) => spec_apply(op, spec_coerce(xl), spec_coerce(xr)),
            },
        },
    }
}

/// Evaluation reads only the cells the expression references: two sheets
/// that agree on those cells give the same result.
pub proof fn lemma_evaluate_frame(
    e: Expr,
    m1: Map<Reference, CellModel>,
    m2: Map<Reference, CellModel>,
)
    requires
        forall|r: Reference|
            spec_references(e).contains(r) ==> #[trigger] spec_cell_value(m1, r)
                == spec_cell_value(m2, r),
    ensures
        spec_evaluate(e, m1) == spec_evaluate(e, m2),
    decreases e,
{
    match e {
        Expr::Literal(_) => {},
        Expr::Reference(r) => {
            assert(spec_references(e) =~= Set::<Reference>::empty().insert(r));
            assert(spec_references(e).contains(r));
            assert(spec_cell_value(m1, r) == spec_cell_value(m2, r));
        },
        Expr::Op(l, _, r) => {
            assert(spec_references(e) =~= spec_references(*l).union(spec_references(*r)));
            assert forall|x: Reference|
                spec_references(*l).contains(x) implies #[trigger] spec_cell_value(m1, x)
                == spec_cell_value(m2, x) by {
                assert(spec_references(e).contains(x));
            }
            assert forall|x: Reference|
                spec_references(*r).contains(x) implies #[trigger] spec_cell_value(m1, x)
                == spec_cell_value(m2, x) by {
                assert(spec_references(e).contains(x));
            }
            lemma_evaluate_frame(*l, m1, m2);
            lemma_evaluate_frame(*r, m1, m2);
        },
    }
}

/// Evaluation is pure: any two results of evaluating the same expression
/// against the same sheet snapshot are identical, since `evaluate` always
/// returns `spec_evaluate` of its two arguments and never mutates the
/// sheet.
pub proof fn lemma_evaluate_pure(
    e: Expr,
    cells: Map<Reference, CellModel>,
    r1: Result<ValueModel, EvaluationError>,
    r2: Result<ValueModel, EvaluationError>,
)
    requires
        r1 == spec_evaluate(e, cells),
        r2 == spec_evaluate(e, cells),
    ensures
        r1 == r2,
{
}

/// Coerces a pair of operands: empty values become integer zero.
fn coerce_types(x: Value, y: Value) -> (r: (Value, Value))
    ensures
        r.0@ == spec_coerce(x@),
        r.1@ == spec_coerce(y@),
{
    let cx = match x {
        Value::Empty => Value::Integer(0),
        other => other,
    };
    let cy = match y {
        Value::Empty => Value::Integer(0),
        other => other,
    };
    (cx, cy)
}

/// Applies one operator to two coerced operands.
fn apply_op(op: Opcode, x: Value, y: Value) -> (r: EvaluationResult)
    ensures
        result_view(r) == spec_apply(op, x@, y@),
{
    match (x, y) {
        (Value::Integer(a), Value::Integer(b)) => match op {
            Opcode::Add => Ok(Value::Integer(a.wrapping_add(b))),
            Opcode::Sub => Ok(Value::Integer(a.wrapping_sub(b))),
            Opcode::Mul => Ok(Value::Integer(a.wrapping_mul(b))),
            Opcode::Div => {
                if b == 0 {
                    Err(EvaluationError::DivisionByZero)
                } else {
                    match a.checked_div(b) {
                        Some(q) => Ok(Value::Integer(q)),
                        None => Ok(Value::Integer(i64::MIN)),
                    }
                }
            },
        },
        _ => Err(EvaluationError::IncompatibleTypes),
    }
}

/// Evaluates an expression against a sheet snapshot. Pure: the result is a
/// function of the expression and the sheet alone, and the sheet is only
/// read.
pub fn evaluate(expr: &Expr, cells: &Sheet) -> (r: EvaluationResult)
    requires
        cells.wf(),
    ensures
        result_view(r) == spec_evaluate(*expr, cells@),
    decreases *expr,
{
    match expr {
        Expr::Literal(x) => Ok(Value::Integer(*x)),
        Expr::Reference(rf) => {
            match cells.get(*rf) {
                Some(cell) => {
                    match &cell.value {
                        Ok(v) => Ok(v.clone()),
                        Err(e) => Err(*e),
                    }
                },
                None => Ok(Value::Empty),
            }
        },
        Expr::Op(l, op, r) => {
            let lv = match evaluate(l, cells) {
                Ok(v) => v,
                Err(e) => {
                    return Err(e);
                },
            };
            let rv = match evaluate(r, cells) {
                Ok(v) => v,
                Err(e) => {
                    return Err(e);
                },
            };
            let (cx, cy) = coerce_types(lv, rv);
            apply_op(*op, cx, cy)
        },
    }
}

} // verus!
