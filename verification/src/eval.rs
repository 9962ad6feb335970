//! The running balance: the first line opens it, every later expression is
//! taken off it, and every later subtotal shows what is left.

use crate::line::{document_view, Line, LineView, Operation, OperationView};
use crate::value::{divide, multiply, outcome, subtract, EvalError, Value, ValueView};
use vstd::prelude::*;
use vstd::slice::SliceAdditionalExecFns;

verus! {

/// The value of an expression: the left operand first, then the right one,
/// then the operator.
pub open spec fn value_of(op: OperationView) -> Result<ValueView, EvalError>
    decreases op,
{
    match op {
        OperationView::Mul(l, r) => match value_of(*l) {
            Ok(a) => match value_of(*r) {
                Ok(b) => multiply(a, b),
                Err(e) => Err(e),
            },
            Err(e) => Err(e),
        },
        OperationView::Div(l, r) => match value_of(*l) {
            Ok(a) => match value_of(*r) {
                Ok(b) => divide(a, b),
                Err(e) => Err(e),
            },
            Err(e) => Err(e),
        },
        OperationView::Value(v) => Ok(v),
    }
}

/// Whether a document has a running balance: its first line is an expression.
pub open spec fn has_balance(lines: Seq<LineView>) -> bool {
    lines.len() > 0 && lines[0] is Operation
}

/// The running balance behind the first `count` lines of a document that has
/// one: the value of the first line, less the value of every later expression.
/// The first value that cannot be computed ends it.
pub open spec fn balance(lines: Seq<LineView>, count: int) -> Result<ValueView, EvalError>
    recommends
        has_balance(lines),
        1 <= count <= lines.len(),
    decreases count,
{
    if count <= 1 {
        value_of(lines[0]->operation)
    } else {
        match balance(lines, count - 1) {
            Ok(before) => match lines[count - 1] {
                LineView::Operation { operation, .. } => match value_of(operation) {
                    Ok(v) => subtract(before, v),
                    Err(e) => Err(e),
                },
                LineView::Subtotal { .. } => Ok(before),
            },
            Err(e) => Err(e),
        }
    }
}

/// Line `i` once the balance has run: a subtotal behind the first line shows
/// the balance in front of it, where that could be computed. Every other line
/// is as it was.
pub open spec fn settled_line(lines: Seq<LineView>, i: int) -> LineView {
    match lines[i] {
        LineView::Subtotal { value, comment } => {
            if has_balance(lines) && balance(lines, i) is Ok {
                LineView::Subtotal { value: Some(balance(lines, i)->Ok_0), comment }
            } else {
                lines[i]
            }
        },
        LineView::Operation { .. } => lines[i],
    }
}

/// The document once the balance has run.
pub open spec fn settled(lines: Seq<LineView>) -> Seq<LineView> {
    Seq::new(lines.len(), |i: int| settled_line(lines, i))
}

/// The error that ends the balance of a document, if any.
pub open spec fn failure(lines: Seq<LineView>) -> Option<EvalError> {
    if has_balance(lines) {
        match balance(lines, lines.len() as int) {
            Ok(_) => None,
            Err(e) => Some(e),
        }
    } else {
        None
    }
}

/// Once a value could not be computed, the balance stays at that error.
pub proof fn lemma_balance_stays_failed(lines: Seq<LineView>, i: int, j: int)
    requires
        1 <= i <= j,
        balance(lines, i) is Err,
    ensures
        balance(lines, j) == balance(lines, i),
    decreases j - i,
{
    if i < j {
        lemma_balance_stays_failed(lines, i, j - 1);
    }
}

/// The value of an expression.
pub fn evaluate_operation(op: &Operation) -> (r: Result<Value, EvalError>)
    ensures
        outcome(r) == value_of(op@),
    decreases op,
{
    match op {
        Operation::Mul(l, r) => {
            let a = match evaluate_operation(l) {
                Ok(a) => a,
                Err(e) => { return Err(e); },
            };
            let b = match evaluate_operation(r) {
                Ok(b) => b,
                Err(e) => { return Err(e); },
            };
            a.mul(b)
        },
        Operation::Div(l, r) => {
            let a = match evaluate_operation(l) {
                Ok(a) => a,
                Err(e) => { return Err(e); },
            };
            let b = match evaluate_operation(r) {
                Ok(b) => b,
                Err(e) => { return Err(e); },
            };
            a.div(b)
        },
        Operation::Value(v) => Ok(*v),
    }
}

/// Runs the balance through a document and writes it into the subtotals.
///
/// A document that is empty or starts with a subtotal has no balance and stays
/// as it is. Where a value cannot be computed the run ends with that error,
/// and the subtotals in front of that line have been written.
pub fn evaluate(lines: &mut [Line]) -> (r: Result<(), EvalError>)
    ensures
        document_view(final(lines)@) == settled(document_view(old(lines)@)),
        r is Ok <==> failure(document_view(old(lines)@)) is None,
        r matches Err(e) ==> failure(document_view(old(lines)@)) == Some(e),
{
    let ghost before = document_view(lines@);
    let n = lines.len();
    if n == 0 {
        assert(document_view(lines@) =~= settled(before));
        return Ok(());
    }
    let first = match &lines[0] {
        Line::Operation { operation, .. } => evaluate_operation(operation),
        Line::Subtotal { .. } => {
            assert(document_view(lines@) =~= settled(before));
            return Ok(());
        },
    };
    let mut acc = match first {
        Ok(v) => v,
        Err(e) => {
            proof {
                lemma_balance_stays_failed(before, 1, n as int);
                assert forall|j: int| 0 <= j < n implies settled_line(before, j) == before[j] by {
                    if j >= 1 {
                        lemma_balance_stays_failed(before, 1, j);
                    }
                }
                assert(document_view(lines@) =~= settled(before));
            }
            return Err(e);
        },
    };
    let mut i: usize = 1;
    while i < n
        invariant
            1 <= i <= n,
            n == lines.len(),
            n == before.len(),
            before == document_view(old(lines)@),
            has_balance(before),
            balance(before, i as int) == Ok::<ValueView, EvalError>(acc@),
            forall|j: int| 0 <= j < i ==> (#[trigger] lines@[j])@ == settled_line(before, j),
            forall|j: int| i <= j < n ==> (#[trigger] lines@[j])@ == before[j],
        decreases n - i,
    {
        let step = match &lines[i] {
            Line::Operation { operation, .. } => {
                match evaluate_operation(operation) {
                    Ok(v) => match acc.sub(v) {
                        Ok(next) => Ok(Some(next)),
                        Err(e) => Err(e),
                    },
                    Err(e) => Err(e),
                }
            },
            Line::Subtotal { comment, .. } => {
                let line = Line::Subtotal { value: Some(acc), comment: comment.clone() };
                lines.set(i, line);
                Ok(None)
            },
        };
        match step {
            Ok(Some(next)) => {
                acc = next;
            },
            Ok(None) => {},
            Err(e) => {
                proof {
                    lemma_balance_stays_failed(before, i + 1, n as int);
                    assert forall|j: int| 0 <= j < n implies (#[trigger] lines@[j])@
                        == settled_line(before, j) by {
                        if j > i {
                            lemma_balance_stays_failed(before, i + 1, j);
                        }
                    }
                    assert(document_view(lines@) =~= settled(before));
                }
                return Err(e);
            },
        }
        i += 1;
    }
    assert(document_view(lines@) =~= settled(before));
    Ok(())
}

/// A document that is empty or starts with a subtotal stays as it is, and its
/// run does not fail: every subtotal keeps the value that it had.
pub proof fn law_no_balance_no_change(lines: Seq<LineView>)
    requires
        lines.len() == 0 || lines[0] is Subtotal,
    ensures
        settled(lines) == lines,
        failure(lines) is None,
{
    assert(settled(lines) =~= lines);
}

/// The run changes nothing but the values of subtotals.
pub proof fn law_settled_keeps_lines(lines: Seq<LineView>, i: int)
    requires
        0 <= i < lines.len(),
    ensures
        settled(lines).len() == lines.len(),
        lines[i] is Operation ==> settled(lines)[i] == lines[i],
        lines[i] is Subtotal ==> settled(lines)[i] is Subtotal && settled(lines)[i]->Subtotal_comment
            == lines[i]->Subtotal_comment,
{
}

/// The run leaves the balance as it is: it depends on the expressions alone.
pub proof fn lemma_balance_of_settled(lines: Seq<LineView>, count: int)
    requires
        has_balance(lines),
        1 <= count <= lines.len(),
    ensures
        balance(settled(lines), count) == balance(lines, count),
    decreases count,
{
    if count > 1 {
        lemma_balance_of_settled(lines, count - 1);
    }
}

/// A second run changes nothing: the balance depends on the expressions
/// alone, and the first run left them as they were.
pub proof fn law_settled_twice(lines: Seq<LineView>)
    ensures
        settled(settled(lines)) == settled(lines),
        failure(settled(lines)) == failure(lines),
{
    let once = settled(lines);
    if has_balance(lines) {
        assert(has_balance(once));
        lemma_balance_of_settled(lines, lines.len() as int);
        assert forall|i: int| 0 <= i < lines.len() implies settled_line(once, i) == once[i] by {
            if i >= 1 {
                lemma_balance_of_settled(lines, i);
            }
        }
    } else {
        assert(once =~= lines);
    }
    assert(settled(once) =~= once);
}

} // verus!
