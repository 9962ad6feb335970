//! The text of a document: every line's left-hand side in one right-aligned
//! column, the comment behind it, and a rule above every subtotal.

use crate::decimal::{normalized, rounded, text, Decimal};
use crate::line::{document_view, Line, LineView, Operation, OperationView};
use crate::value::{Value, ValueView};
use vstd::prelude::*;
use vstd::string::{StrSliceExecFns, StringExecFns};

verus! {

/// The text of a number in a document: rounded to two places, without the
/// zeros that end its fraction.
pub open spec fn number_text(d: (int, nat)) -> Seq<char> {
    text(normalized(rounded(d, 2)))
}

/// The text of a value: a number, or `[lo, hi]`.
pub open spec fn value_text(v: ValueView) -> Seq<char> {
    match v {
        ValueView::Number(n) => number_text(n),
        ValueView::Interval(lo, hi) => "["@ + number_text(lo) + ", "@ + number_text(hi) + "]"@,
    }
}

/// The text of an expression: its operands in order, with ` * ` and ` / `
/// between them and no brackets.
pub open spec fn operation_text(op: OperationView) -> Seq<char>
    decreases op,
{
    match op {
        OperationView::Mul(l, r) => operation_text(*l) + " * "@ + operation_text(*r),
        OperationView::Div(l, r) => operation_text(*l) + " / "@ + operation_text(*r),
        OperationView::Value(v) => value_text(v),
    }
}

/// The left-hand side of a line: the expression, or the subtotal's value, or
/// nothing where a subtotal has none.
pub open spec fn left_text(line: LineView) -> Seq<char> {
    match line {
        LineView::Operation { operation, .. } => operation_text(operation),
        LineView::Subtotal { value: Some(v), .. } => value_text(v),
        LineView::Subtotal { value: None, .. } => Seq::empty(),
    }
}

/// The width of the left column: the length of the longest left-hand side.
pub open spec fn column_width(lines: Seq<LineView>) -> nat
    decreases lines.len(),
{
    if lines.len() == 0 {
        0
    } else {
        let rest = column_width(lines.drop_last());
        let last = left_text(lines.last()).len();
        if last > rest {
            last
        } else {
            rest
        }
    }
}

/// `count` times the character `c`.
pub open spec fn repeated(c: char, count: int) -> Seq<char> {
    Seq::new(
        if count > 0 {
            count as nat
        } else {
            0
        },
        |i: int| c,
    )
}

/// `t` behind as many spaces as make it `width` long.
pub open spec fn right_aligned(t: Seq<char>, width: nat) -> Seq<char> {
    repeated(' ', width - t.len()) + t
}

/// The row of a line's left-hand side and comment, with its line break.
pub open spec fn entry_row(line: LineView, width: nat) -> Seq<char> {
    let comment = match line {
        LineView::Operation { comment, .. } => comment,
        LineView::Subtotal { comment, .. } => comment,
    };
    right_aligned(left_text(line), width) + " "@ + comment + "\n"@
}

/// The rows of a line: an expression has one. A subtotal has a rule of dashes
/// above its row and an empty row below it.
pub open spec fn rows(line: LineView, width: nat) -> Seq<char> {
    match line {
        LineView::Operation { .. } => entry_row(line, width),
        LineView::Subtotal { .. } => repeated('-', width as int) + "\n"@ + entry_row(line, width)
            + "\n"@,
    }
}

/// The rows of the first `count` lines of a document, for a left column of the
/// given width.
pub open spec fn rendered_rows(lines: Seq<LineView>, width: nat, count: int) -> Seq<char>
    decreases count,
{
    if count <= 0 {
        Seq::empty()
    } else {
        rendered_rows(lines, width, count - 1) + rows(lines[count - 1], width)
    }
}

/// The text of a document.
pub open spec fn rendered(lines: Seq<LineView>) -> Seq<char> {
    rendered_rows(lines, column_width(lines), lines.len() as int)
}

/// No left-hand side is longer than the column.
pub proof fn lemma_column_holds_every_line(lines: Seq<LineView>, i: int)
    requires
        0 <= i < lines.len(),
    ensures
        left_text(lines[i]).len() <= column_width(lines),
    decreases lines.len(),
{
    if i < lines.len() - 1 {
        lemma_column_holds_every_line(lines.drop_last(), i);
    }
}

fn append_number(out: &mut String, d: Decimal)
    ensures
        final(out)@ == old(out)@ + number_text(d@),
{
    let t = d.round_dp(2).normalize().to_text();
    out.append(t.as_str());
}

/// Writes the text of a value behind `out`.
pub fn pretty_print_value(out: &mut String, v: Value)
    ensures
        final(out)@ == old(out)@ + value_text(v@),
{
    match v {
        Value::Number(n) => {
            append_number(out, n);
        },
        Value::Interval(lo, hi) => {
            out.append("[");
            append_number(out, lo);
            out.append(", ");
            append_number(out, hi);
            out.append("]");
            assert(out@ =~= old(out)@ + value_text(v@));
        },
    }
}

/// Writes the text of an expression behind `out`.
pub fn pretty_print_operation(out: &mut String, op: &Operation)
    ensures
        final(out)@ == old(out)@ + operation_text(op@),
    decreases op,
{
    match op {
        Operation::Mul(l, r) => {
            pretty_print_operation(out, l);
            out.append(" * ");
            pretty_print_operation(out, r);
            assert(out@ =~= old(out)@ + operation_text(op@));
        },
        Operation::Div(l, r) => {
            pretty_print_operation(out, l);
            out.append(" / ");
            pretty_print_operation(out, r);
            assert(out@ =~= old(out)@ + operation_text(op@));
        },
        Operation::Value(v) => {
            pretty_print_value(out, *v);
        },
    }
}

fn append_run(out: &mut String, unit: &str, count: usize)
    requires
        unit@.len() == 1,
    ensures
        final(out)@ == old(out)@ + repeated(unit@[0], count as int),
{
    let mut i: usize = 0;
    assert(out@ =~= old(out)@ + repeated(unit@[0], 0));
    while i < count
        invariant
            i <= count,
            unit@.len() == 1,
            out@ == old(out)@ + repeated(unit@[0], i as int),
        decreases count - i,
    {
        out.append(unit);
        i += 1;
        assert(out@ =~= old(out)@ + repeated(unit@[0], i as int));
    }
}

fn left_side(line: &Line) -> (t: String)
    ensures
        t@ == left_text(line@),
{
    let mut t = String::new();
    match line {
        Line::Operation { operation, .. } => {
            pretty_print_operation(&mut t, operation);
        },
        Line::Subtotal { value: Some(v), .. } => {
            pretty_print_value(&mut t, *v);
        },
        Line::Subtotal { value: None, .. } => {},
    }
    assert(t@ =~= left_text(line@));
    t
}

fn append_entry_row(out: &mut String, left: &String, comment: &String, width: usize)
    requires
        left@.len() <= width,
    ensures
        final(out)@ == old(out)@ + right_aligned(left@, width as nat) + " "@ + comment@ + "\n"@,
{
    let len = left.as_str().unicode_len();
    proof {
        reveal_strlit(" ");
    }
    append_run(out, " ", width - len);
    out.append(left.as_str());
    out.append(" ");
    out.append(comment.as_str());
    out.append("\n");
    assert(out@ =~= old(out)@ + right_aligned(left@, width as nat) + " "@ + comment@ + "\n"@);
}

fn append_rows(out: &mut String, line: &Line, left: &String, width: usize)
    requires
        left@ == left_text(line@),
        left@.len() <= width,
    ensures
        final(out)@ == old(out)@ + rows(line@, width as nat),
{
    match line {
        Line::Operation { comment, .. } => {
            append_entry_row(out, left, comment, width);
        },
        Line::Subtotal { comment, .. } => {
            proof {
                reveal_strlit("-");
            }
            append_run(out, "-", width);
            out.append("\n");
            append_entry_row(out, left, comment, width);
            out.append("\n");
            assert(out@ =~= old(out)@ + rows(line@, width as nat));
        },
    }
}

/// The text of a document.
pub fn pretty_print(lines: Vec<Line>) -> (out: String)
    ensures
        out@ == rendered(document_view(lines@)),
{
    let ghost doc = document_view(lines@);
    let n = lines.len();
    let mut lefts: Vec<String> = Vec::new();
    let mut width: usize = 0;
    let mut i: usize = 0;
    while i < n
        invariant
            i <= n,
            n == lines.len(),
            doc == document_view(lines@),
            lefts.len() == i,
            forall|j: int| 0 <= j < i ==> (#[trigger] lefts@[j])@ == left_text(doc[j]),
            width == column_width(doc.take(i as int)),
        decreases n - i,
    {
        let t = left_side(&lines[i]);
        let len = t.as_str().unicode_len();
        proof {
            assert(doc.take(i + 1).drop_last() =~= doc.take(i as int));
        }
        if len > width {
            width = len;
        }
        lefts.push(t);
        i += 1;
    }
    assert(doc.take(n as int) =~= doc);
    let mut out = String::new();
    let mut i: usize = 0;
    while i < n
        invariant
            i <= n,
            n == lines.len(),
            doc == document_view(lines@),
            lefts.len() == n,
            forall|j: int| 0 <= j < n ==> (#[trigger] lefts@[j])@ == left_text(doc[j]),
            width == column_width(doc),
            out@ == rendered_rows(doc, width as nat, i as int),
        decreases n - i,
    {
        proof {
            lemma_column_holds_every_line(doc, i as int);
        }
        append_rows(&mut out, &lines[i], &lefts[i], width);
        i += 1;
    }
    out
}

} // verus!
