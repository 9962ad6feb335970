//! The lines of a ledger: expressions over values, and subtotals.

use crate::value::{Value, ValueView};
use vstd::prelude::*;

verus! {

/// An expression: values joined by `*` and `/`. The tree says in which order
/// the operators apply.
#[derive(Debug, PartialEq, Eq)]
pub enum Operation {
    Mul(Box<Operation>, Box<Operation>),
    Div(Box<Operation>, Box<Operation>),
    Value(Value),
}

/// One line of a ledger.
#[derive(Debug, PartialEq, Eq)]
pub enum Line {
    /// An expression and the comment behind it.
    Operation { operation: Operation, comment: String },
    /// A place for the running balance, with the value that stands there, if
    /// any, and the comment behind it.
    Subtotal { value: Option<Value>, comment: String },
}

/// An expression as mathematics sees it.
pub ghost enum OperationView {
    Mul(Box<OperationView>, Box<OperationView>),
    Div(Box<OperationView>, Box<OperationView>),
    Value(ValueView),
}

/// A line as mathematics sees it.
pub ghost enum LineView {
    Operation { operation: OperationView, comment: Seq<char> },
    Subtotal { value: Option<ValueView>, comment: Seq<char> },
}

/// The view of an expression: that of each value in it, in the same tree.
pub open spec fn operation_view(op: Operation) -> OperationView
    decreases op,
{
    match op {
        Operation::Mul(l, r) => OperationView::Mul(
            Box::new(operation_view(*l)),
            Box::new(operation_view(*r)),
        ),
        Operation::Div(l, r) => OperationView::Div(
            Box::new(operation_view(*l)),
            Box::new(operation_view(*r)),
        ),
        Operation::Value(v) => OperationView::Value(v@),
    }
}

impl View for Operation {
    type V = OperationView;

    open spec fn view(&self) -> OperationView {
        operation_view(*self)
    }
}

/// The view of an optional value.
pub open spec fn value_view(v: Option<Value>) -> Option<ValueView> {
    match v {
        Some(v) => Some(v@),
        None => None,
    }
}

impl View for Line {
    type V = LineView;

    open spec fn view(&self) -> LineView {
        match self {
            Line::Operation { operation, comment } => LineView::Operation {
                operation: operation@,
                comment: comment@,
            },
            Line::Subtotal { value, comment } => LineView::Subtotal {
                value: value_view(*value),
                comment: comment@,
            },
        }
    }
}

/// The views of the lines of a document, in order.
pub open spec fn document_view(lines: Seq<Line>) -> Seq<LineView> {
    lines.map_values(|l: Line| l@)
}

} // verus!
