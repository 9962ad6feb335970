//! What is printed can be read again: the text of a number spells that number,
//! and the text of a settled document is a document with the same expressions
//! and the same balance.

use crate::decimal::{
    digit_char, digit_value, digits, digits_end, digits_value, has_fraction, is_digit,
    is_number, last_digits, magnitude, normalized, number_end, number_read, number_value,
    pow10, representable, rounded, text, whole_start,
};
use crate::eval::{
    balance, failure, has_balance, lemma_balance_of_settled, lemma_balance_stays_failed,
    settled,
};
use crate::line::{LineView, OperationView};
use crate::parse::{
    comment_at, dashes_end, document, factor_at, inline_space_end, interval_at,
    is_inline_space, is_line_break, is_space, joined, line_at, line_break_end, line_end,
    lines_from, number_at, operation_at, operation_from, operation_line_at, space_end,
    subtotal_at, value_at, Factor, FailurePoint,
};
use crate::print::{
    column_width, entry_row, left_text, lemma_column_holds_every_line, number_text,
    operation_text, rendered, rendered_rows, repeated, rows, value_text,
};
use crate::value::ValueView;
use vstd::prelude::*;

verus! {

proof fn lemma_digit_char(d: int)
    requires
        0 <= d <= 9,
    ensures
        is_digit(digit_char(d)),
        digit_value(digit_char(d)) == d,
        digit_char(d) != '-',
        digit_char(d) != '.',
{
    let all = seq!['0', '1', '2', '3', '4', '5', '6', '7', '8', '9'];
    assert(all[0] == '0' && all[1] == '1' && all[2] == '2' && all[3] == '3' && all[4] == '4');
    assert(all[5] == '5' && all[6] == '6' && all[7] == '7' && all[8] == '8' && all[9] == '9');
}

/// Whether every character of `s` is a digit.
pub open spec fn all_digits(s: Seq<char>) -> bool {
    forall|i: int| 0 <= i < s.len() ==> is_digit(#[trigger] s[i])
}

proof fn lemma_pow10_positive(n: nat)
    ensures
        pow10(n) > 0,
    decreases n,
{
    if n > 0 {
        lemma_pow10_positive((n - 1) as nat);
    }
}

proof fn lemma_mod_step(n: int, p: int)
    requires
        n >= 0,
        p > 0,
    ensures
        ((n / 10) % p) * 10 + n % 10 == n % (10 * p),
{
    let q = n / 10;
    let hi = q / p;
    let lo = q % p;
    assert(q == hi * p + lo && 0 <= lo < p) by (nonlinear_arith)
        requires
            hi == q / p,
            lo == q % p,
            p > 0,
    ;
    let r = lo * 10 + n % 10;
    assert(n == hi * (10 * p) + r) by (nonlinear_arith)
        requires
            n == q * 10 + n % 10,
            q == hi * p + lo,
            r == lo * 10 + n % 10,
    ;
    assert(0 <= r < 10 * p) by (nonlinear_arith)
        requires
            0 <= lo < p,
            0 <= n % 10 < 10,
            r == lo * 10 + n % 10,
    ;
    vstd::arithmetic::div_mod::lemma_fundamental_div_mod_converse(n, 10 * p, hi, r);
}

proof fn lemma_digits(n: nat)
    ensures
        digits(n).len() >= 1,
        all_digits(digits(n)),
        digits_value(digits(n)) == n,
    decreases n,
{
    if n < 10 {
        lemma_digit_char(n as int);
        let t = digits(n);
        assert(t.drop_last() =~= Seq::<char>::empty());
        assert(digits_value(t.drop_last()) == 0);
    } else {
        lemma_digits(n / 10);
        lemma_digit_char((n % 10) as int);
        let t = digits(n);
        assert(t.drop_last() =~= digits(n / 10));
    }
}

proof fn lemma_last_digits(n: nat, count: nat)
    ensures
        last_digits(n, count).len() == count,
        all_digits(last_digits(n, count)),
        digits_value(last_digits(n, count)) == n % pow10(count),
    decreases count,
{
    lemma_pow10_positive(count);
    if count > 0 {
        lemma_last_digits(n / 10, (count - 1) as nat);
        lemma_digit_char((n % 10) as int);
        lemma_pow10_positive((count - 1) as nat);
        let t = last_digits(n, count);
        assert(t.drop_last() =~= last_digits(n / 10, (count - 1) as nat));
        lemma_mod_step(n as int, pow10((count - 1) as nat) as int);
    }
}

proof fn lemma_digits_value_joined(a: Seq<char>, b: Seq<char>)
    ensures
        digits_value(a + b) == digits_value(a) * pow10(b.len()) + digits_value(b),
    decreases b.len(),
{
    if b.len() == 0 {
        assert(a + b =~= a);
        assert(pow10(b.len()) == 1);
        assert(digits_value(b) == 0);
        assert(digits_value(a) * 1 == digits_value(a)) by (nonlinear_arith);
    } else {
        lemma_digits_value_joined(a, b.drop_last());
        assert((a + b).drop_last() =~= a + b.drop_last());
        assert((a + b).last() == b.last());
        let p = pow10(b.drop_last().len()) as int;
        let x = digits_value(a) as int;
        let y = digits_value(b.drop_last()) as int;
        assert(pow10(b.len()) == 10 * p);
        assert(digits_value(a + b) == (x * p + y) * 10 + digit_value(b.last()));
        assert(digits_value(b) == y * 10 + digit_value(b.last()));
        assert((x * p + y) * 10 == x * (10 * p) + y * 10) by (nonlinear_arith);
        assert(digits_value(a) * pow10(b.len()) == x * (10 * p));
    }
}

/// Whether the text `s` holds `piece` from position `at` on.
#[verifier::opaque]
pub open spec fn holds(s: Seq<char>, at: int, piece: Seq<char>) -> bool {
    &&& 0 <= at
    &&& at + piece.len() <= s.len()
    &&& forall|i: int| 0 <= i < piece.len() ==> s[at + i] == #[trigger] piece[i]
}

/// Whether a number that ends at `at` cannot go on there: the text ends, or
/// neither a digit nor a point follows.
pub open spec fn ends_number(s: Seq<char>, at: int) -> bool {
    at >= s.len() || (!is_digit(s[at]) && s[at] != '.')
}

proof fn lemma_digits_run(s: Seq<char>, a: int, b: int)
    requires
        0 <= a <= b <= s.len(),
        forall|i: int| a <= i < b ==> is_digit(#[trigger] s[i]),
        b == s.len() || !is_digit(s[b]),
    ensures
        digits_end(s, a) == b,
    decreases b - a,
{
    if a < b {
        lemma_digits_run(s, a + 1, b);
    }
}

/// How many characters the sign of a number takes.
pub open spec fn sign_length(d: (int, nat)) -> int {
    if d.0 < 0 {
        1
    } else {
        0
    }
}

/// The digits of the whole part of a number.
pub open spec fn whole_digits(d: (int, nat)) -> Seq<char> {
    digits(magnitude(d.0) / pow10(d.1))
}

/// The digits of the fraction of a number.
pub open spec fn fraction_digits(d: (int, nat)) -> Seq<char> {
    last_digits(magnitude(d.0) % pow10(d.1), d.1)
}

/// How long the text of a number is.
pub open spec fn text_length(d: (int, nat)) -> int {
    sign_length(d) + whole_digits(d).len() + if d.1 > 0 {
        1 + d.1
    } else {
        0
    }
}

/// The parts of the text of a number, as they stand in a text that holds it.
proof fn lemma_text_parts(s: Seq<char>, at: int, d: (int, nat))
    requires
        holds(s, at, text(d)),
    ensures
        text(d).len() == text_length(d),
        whole_digits(d).len() >= 1,
        all_digits(whole_digits(d)),
        all_digits(fraction_digits(d)),
        fraction_digits(d).len() == d.1,
        d.0 < 0 ==> s[at] == '-',
        holds(s, at + sign_length(d), whole_digits(d)),
        d.1 > 0 ==> s[at + sign_length(d) + whole_digits(d).len()] == '.',
        d.1 > 0 ==> holds(s, at + sign_length(d) + whole_digits(d).len() + 1, fraction_digits(d)),
{
    reveal(holds);
    let t = text(d);
    let sign = sign_length(d);
    let whole = whole_digits(d);
    let fraction = fraction_digits(d);
    lemma_digits(magnitude(d.0) / pow10(d.1));
    lemma_last_digits(magnitude(d.0) % pow10(d.1), d.1);
    let w = whole.len() as int;
    if d.0 < 0 {
        assert(t[0] == '-');
    }
    assert forall|i: int| 0 <= i < whole.len() implies s[at + sign + i] == #[trigger] whole[i] by {
        assert(t[sign + i] == whole[i]);
    }
    if d.1 > 0 {
        assert(t[sign + w] == '.');
        assert forall|i: int| 0 <= i < fraction.len() implies s[at + sign + w + 1 + i]
            == #[trigger] fraction[i] by {
            assert(t[sign + w + 1 + i] == fraction[i]);
        }
    }
}

/// Where the text of a number stands in a text and cannot go on, a number is
/// read from end to end of it.
proof fn lemma_number_end_of_text(s: Seq<char>, at: int, d: (int, nat))
    requires
        holds(s, at, text(d)),
        ends_number(s, at + text(d).len()),
    ensures
        whole_start(s, at) == at + sign_length(d),
        digits_end(s, at + sign_length(d)) == at + sign_length(d) + whole_digits(d).len(),
        has_fraction(s, at) == (d.1 > 0),
        number_end(s, at) == Some(at + text(d).len()),
{
    reveal(holds);
    lemma_text_parts(s, at, d);
    let sign = sign_length(d);
    let whole = whole_digits(d);
    let fraction = fraction_digits(d);
    let start = at + sign;
    let point = start + whole.len();
    assert(is_digit(whole[0]));
    assert(s[start] == whole[0]);
    assert forall|i: int| start <= i < point implies is_digit(#[trigger] s[i]) by {
        assert(s[start + (i - start)] == whole[i - start]);
    }
    lemma_digits_run(s, start, point);
    if d.1 > 0 {
        let end = point + 1 + d.1;
        assert forall|i: int| point + 1 <= i < end implies is_digit(#[trigger] s[i]) by {
            assert(s[point + 1 + (i - point - 1)] == fraction[i - point - 1]);
        }
        lemma_digits_run(s, point + 1, end);
    }
}

/// The text of a number spells that number.
pub proof fn law_text_spells_the_number(d: (int, nat))
    requires
        representable(d.0, d.1),
    ensures
        is_number(text(d)),
        number_value(text(d)) == Some(d),
        number_read(text(d)) == Some(d),
{
    reveal(holds);
    let t = text(d);
    lemma_text_parts(t, 0, d);
    lemma_number_end_of_text(t, 0, d);
    let sign = sign_length(d);
    let whole = whole_digits(d);
    let fraction = fraction_digits(d);
    let point = sign + whole.len();
    assert(t.subrange(sign, point) =~= whole);
    if d.1 > 0 {
        assert(t.subrange(point + 1, t.len() as int) =~= fraction);
    } else {
        assert(fraction =~= Seq::<char>::empty());
    }
    lemma_digits(magnitude(d.0) / pow10(d.1));
    lemma_last_digits(magnitude(d.0) % pow10(d.1), d.1);
    lemma_digits_value_joined(whole, fraction);
    lemma_pow10_positive(d.1);
    let m = magnitude(d.0) as int;
    let p = pow10(d.1) as int;
    assert((m / p) * p + m % p == m) by (nonlinear_arith)
        requires
            p > 0,
    ;
    assert(digits_value(whole) == m / p);
    assert(0 <= m % p < p) by (nonlinear_arith)
        requires
            p > 0,
    ;
    vstd::arithmetic::div_mod::lemma_small_mod((m % p) as nat, p as nat);
    assert(digits_value(fraction) == m % p);
    assert(pow10(fraction.len()) == p);
    assert(digits_value(whole + fraction) == (m / p) * p + m % p);
}

proof fn lemma_rounded_is_representable(d: (int, nat), places: nat)
    requires
        representable(d.0, d.1),
    ensures
        representable(rounded(d, places).0, rounded(d, places).1),
{
    if d.1 > places {
        let unit = pow10((d.1 - places) as nat) as int;
        let mag = magnitude(d.0) as int;
        lemma_pow10_positive((d.1 - places - 1) as nat);
        assert(unit >= 10);
        assert(mag / unit <= mag / 10) by (nonlinear_arith)
            requires
                unit >= 10,
                mag >= 0,
        ;
    }
}

proof fn lemma_normalized_is_representable(d: (int, nat))
    requires
        representable(d.0, d.1),
    ensures
        representable(normalized(d).0, normalized(d).1),
    decreases d.1,
{
    if d.0 != 0 && d.1 > 0 && d.0 % 10 == 0 {
        lemma_normalized_is_representable((d.0 / 10, (d.1 - 1) as nat));
    }
}

/// What is printed for a number spells that number, rounded to two places and
/// without the zeros that end its fraction.
pub proof fn law_printed_number_is_read_back(d: (int, nat))
    requires
        representable(d.0, d.1),
    ensures
        is_number(number_text(d)),
        number_read(number_text(d)) == Some(normalized(rounded(d, 2))),
{
    lemma_rounded_is_representable(d, 2);
    lemma_normalized_is_representable(rounded(d, 2));
    law_text_spells_the_number(normalized(rounded(d, 2)));
}

/// Whether printing leaves the number as it is: it has at most two places and
/// no zero ends its fraction.
pub open spec fn is_plain(d: (int, nat)) -> bool {
    representable(d.0, d.1) && normalized(rounded(d, 2)) == d
}

/// Whether printing leaves every number of the value as it is.
pub open spec fn is_plain_value(v: ValueView) -> bool {
    match v {
        ValueView::Number(n) => is_plain(n),
        ValueView::Interval(lo, hi) => is_plain(lo) && is_plain(hi),
    }
}

proof fn lemma_literals()
    ensures
        "["@ == seq!['['],
        ", "@ == seq![',', ' '],
        "]"@ == seq![']'],
        " * "@ == seq![' ', '*', ' '],
        " / "@ == seq![' ', '/', ' '],
        " "@ == seq![' '],
        "\n"@ == seq!['\n'],
{
    reveal_strlit("[");
    reveal_strlit(", ");
    reveal_strlit("]");
    reveal_strlit(" * ");
    reveal_strlit(" / ");
    reveal_strlit(" ");
    reveal_strlit("\n");
    assert("["@ =~= seq!['[']);
    assert(", "@ =~= seq![',', ' ']);
    assert("]"@ =~= seq![']']);
    assert(" * "@ =~= seq![' ', '*', ' ']);
    assert(" / "@ =~= seq![' ', '/', ' ']);
    assert(" "@ =~= seq![' ']);
    assert("\n"@ =~= seq!['\n']);
}

/// A character that may stand in the text of a value.
pub open spec fn is_value_char(c: char) -> bool {
    is_digit(c) || c == '-' || c == '.' || c == '[' || c == ']' || c == ',' || c == ' '
}

/// The text of a number starts with a digit or a `-`, and holds nothing but
/// digits, `-` and `.`.
proof fn lemma_text_chars(d: (int, nat))
    ensures
        text(d).len() >= 1,
        is_digit(text(d)[0]) || text(d)[0] == '-',
        forall|i: int|
            0 <= i < text(d).len() ==> is_digit(#[trigger] text(d)[i]) || text(d)[i] == '-'
                || text(d)[i] == '.',
{
    reveal(holds);
    let t = text(d);
    lemma_text_parts(t, 0, d);
    let sign = sign_length(d);
    let whole = whole_digits(d);
    let fraction = fraction_digits(d);
    let w = whole.len() as int;
    assert(t[sign] == whole[0]);
    assert forall|i: int| 0 <= i < t.len() implies is_digit(#[trigger] t[i]) || t[i] == '-'
        || t[i] == '.' by {
        if i < sign {
        } else if i < sign + w {
            assert(t[sign + (i - sign)] == whole[i - sign]);
        } else if i == sign + w {
        } else {
            assert(t[sign + w + 1 + (i - sign - w - 1)] == fraction[i - sign - w - 1]);
        }
    }
}

/// Where the text of a number stands in a text and cannot go on, that number
/// is read there if a decimal can hold it. Whatever is read ends where the
/// text of the number ends.
proof fn lemma_number_at_text(s: Seq<char>, at: int, d: (int, nat))
    requires
        holds(s, at, text(d)),
        ends_number(s, at + text(d).len()),
    ensures
        representable(d.0, d.1) ==> number_at(s, at) == Ok::<((int, nat), int), FailurePoint>(
            (d, at + text(d).len()),
        ),
        number_at(s, at) matches Ok((_, end)) ==> end == at + text(d).len(),
        number_at(s, at) matches Err(f) ==> f.at == at,
{
    reveal(holds);
    lemma_number_end_of_text(s, at, d);
    assert(s.subrange(at, at + text(d).len()) =~= text(d));
    if representable(d.0, d.1) {
        law_text_spells_the_number(d);
    }
}

/// A text that holds a piece holds every part of the piece.
proof fn lemma_holds_part(s: Seq<char>, at: int, piece: Seq<char>, offset: int, part: Seq<char>)
    requires
        holds(s, at, piece),
        0 <= offset,
        offset + part.len() <= piece.len(),
        forall|i: int| 0 <= i < part.len() ==> piece[offset + i] == #[trigger] part[i],
    ensures
        holds(s, at + offset, part),
{
    reveal(holds);
    assert forall|i: int| 0 <= i < part.len() implies s[at + offset + i] == #[trigger] part[i] by {
        assert(s[at + (offset + i)] == piece[offset + i]);
    }
}

/// Where the text of a value stands in a text in front of a space, that value
/// is read there if printing leaves its numbers as they are. Whatever value is
/// read ends where the text of the value ends.
proof fn lemma_value_at_text(s: Seq<char>, at: int, v: ValueView)
    requires
        holds(s, at, value_text(v)),
        at + value_text(v).len() < s.len(),
        s[at + value_text(v).len()] == ' ',
    ensures
        value_text(v).len() >= 1,
        is_digit(s[at]) || s[at] == '-' || s[at] == '[',
        is_plain_value(v) ==> value_at(s, at) == Ok::<(ValueView, int), FailurePoint>(
            (v, at + value_text(v).len()),
        ),
        value_at(s, at) matches Ok((_, end)) ==> end == at + value_text(v).len(),
{
    reveal(holds);
    lemma_literals();
    let t = value_text(v);
    match v {
        ValueView::Number(n) => {
            let d = normalized(rounded(n, 2));
            lemma_text_chars(d);
            assert(s[at + 0] == t[0]);
            lemma_number_at_text(s, at, d);
        },
        ValueView::Interval(lo, hi) => {
            let d1 = normalized(rounded(lo, 2));
            let d2 = normalized(rounded(hi, 2));
            let t1 = text(d1);
            let t2 = text(d2);
            let l1 = t1.len() as int;
            let l2 = t2.len() as int;
            lemma_text_chars(d1);
            lemma_text_chars(d2);
            assert(t =~= seq!['['] + t1 + seq![',', ' '] + t2 + seq![']']);
            assert(t.len() == l1 + l2 + 4);
            assert(s[at + 0] == t[0]);
            assert(s[at] == '[');
            assert(number_end(s, at) is None);
            lemma_holds_part(s, at, t, 1, t1);
            lemma_holds_part(s, at, t, 3 + l1, t2);
            let comma = at + 1 + l1;
            assert(s[at + (1 + l1)] == t[1 + l1]);
            assert(s[at + (2 + l1)] == t[2 + l1]);
            assert(s[comma] == ',');
            assert(s[comma + 1] == ' ');
            let after = comma + 2 + l2;
            assert(s[at + (3 + l1 + l2)] == t[3 + l1 + l2]);
            assert(s[after] == ']');
            assert(s[at + 1] == t1[0]);
            assert(s[comma + 2] == t2[0]);
            assert(inline_space_end(s, at + 1) == at + 1);
            assert(is_space(' '));
            assert(space_end(s, comma + 2) == comma + 2);
            assert(space_end(s, comma + 1) == comma + 2);
            assert(space_end(s, after) == after);
            lemma_number_at_text(s, at + 1, d1);
            lemma_number_at_text(s, comma + 2, d2);
        },
    }
}

/// Whether printing and reading leave the expression as it is: printing
/// leaves its numbers as they are, and every operator has a value to its
/// right.
pub open spec fn is_plain_operation(op: OperationView) -> bool
    decreases op,
{
    match op {
        OperationView::Value(v) => is_plain_value(v),
        OperationView::Mul(l, r) => is_plain_operation(*l) && match *r {
            OperationView::Value(v) => is_plain_value(v),
            _ => false,
        },
        OperationView::Div(l, r) => is_plain_operation(*l) && match *r {
            OperationView::Value(v) => is_plain_value(v),
            _ => false,
        },
    }
}

/// The value that an expression starts with.
pub open spec fn first_value(op: OperationView) -> ValueView
    decreases op,
{
    match op {
        OperationView::Value(v) => v,
        OperationView::Mul(l, _) => first_value(*l),
        OperationView::Div(l, _) => first_value(*l),
    }
}

/// Where the text of an expression stands in a text in front of a space, its
/// first value is read at its start, and reading on from there arrives at the
/// whole expression at the end of its text.
proof fn lemma_operation_text(s: Seq<char>, at: int, op: OperationView)
    requires
        is_plain_operation(op),
        holds(s, at, operation_text(op)),
        at + operation_text(op).len() < s.len(),
        s[at + operation_text(op).len()] == ' ',
    ensures
        operation_text(op).len() >= 1,
        is_digit(s[at]) || s[at] == '-' || s[at] == '[',
        value_at(s, at) == Ok::<(ValueView, int), FailurePoint>(
            (first_value(op), at + value_text(first_value(op)).len()),
        ),
        operation_from(
            s,
            at + value_text(first_value(op)).len(),
            OperationView::Value(first_value(op)),
        ) == operation_from(s, at + operation_text(op).len(), op),
    decreases op, 0int,
{
    lemma_literals();
    match op {
        OperationView::Value(v) => {
            lemma_value_at_text(s, at, v);
        },
        OperationView::Mul(l, r) => {
            lemma_operation_step(s, at, op, *l, true, r->Value_0);
        },
        OperationView::Div(l, r) => {
            lemma_operation_step(s, at, op, *l, false, r->Value_0);
        },
    }
}

/// The character of an operator.
pub open spec fn operator(times: bool) -> char {
    if times {
        '*'
    } else {
        '/'
    }
}

proof fn lemma_joined_text(left: OperationView, times: bool, v: ValueView)
    ensures
        operation_text(joined(left, times, v)) == operation_text(left) + seq![
            ' ',
            operator(times),
            ' ',
        ] + value_text(v),
{
    lemma_literals();
    assert(operation_text(OperationView::Value(v)) == value_text(v));
    if times {
        assert(operation_text(joined(left, times, v)) == operation_text(left) + " * "@
            + operation_text(OperationView::Value(v)));
    } else {
        assert(operation_text(joined(left, times, v)) == operation_text(left) + " / "@
            + operation_text(OperationView::Value(v)));
    }
}

/// The parts of a text that is an expression, an operator and a value.
proof fn lemma_step_parts(
    s: Seq<char>,
    at: int,
    tl: Seq<char>,
    sign: char,
    tv: Seq<char>,
)
    requires
        holds(s, at, tl + seq![' ', sign, ' '] + tv),
    ensures
        holds(s, at, tl),
        holds(s, at + tl.len() + 3, tv),
        s[at + tl.len()] == ' ',
        s[at + tl.len() + 1] == sign,
        s[at + tl.len() + 2] == ' ',
{
    reveal(holds);
    let t = tl + seq![' ', sign, ' '] + tv;
    let ll = tl.len() as int;
    lemma_holds_part(s, at, t, 0, tl);
    lemma_holds_part(s, at, t, ll + 3, tv);
    assert(s[at + (ll + 0)] == t[ll + 0]);
    assert(s[at + (ll + 1)] == t[ll + 1]);
    assert(s[at + (ll + 2)] == t[ll + 2]);
}

/// An operator between two spaces, with a value behind it, is a factor.
proof fn lemma_factor(s: Seq<char>, q: int, times: bool, v: ValueView, end: int)
    requires
        0 <= q,
        q + 3 < s.len(),
        s[q] == ' ',
        s[q + 1] == operator(times),
        s[q + 2] == ' ',
        !is_inline_space(s[q + 3]),
        value_at(s, q + 3) == Ok::<(ValueView, int), FailurePoint>((v, end)),
    ensures
        factor_at(s, q) == Some(Factor { times, value: v, end }),
{
    assert(inline_space_end(s, q + 1) == q + 1);
    assert(inline_space_end(s, q) == q + 1);
    assert(inline_space_end(s, q + 3) == q + 3);
    assert(inline_space_end(s, q + 2) == q + 3);
}

proof fn lemma_operation_step(
    s: Seq<char>,
    at: int,
    op: OperationView,
    left: OperationView,
    times: bool,
    v: ValueView,
)
    requires
        is_plain_operation(op),
        op == joined(left, times, v),
        holds(s, at, operation_text(op)),
        at + operation_text(op).len() < s.len(),
        s[at + operation_text(op).len()] == ' ',
    ensures
        operation_text(op).len() >= 1,
        is_digit(s[at]) || s[at] == '-' || s[at] == '[',
        value_at(s, at) == Ok::<(ValueView, int), FailurePoint>(
            (first_value(op), at + value_text(first_value(op)).len()),
        ),
        operation_from(
            s,
            at + value_text(first_value(op)).len(),
            OperationView::Value(first_value(op)),
        ) == operation_from(s, at + operation_text(op).len(), op),
    decreases left, 1int,
{
    let tl = operation_text(left);
    let tv = value_text(v);
    let q = at + tl.len();
    let end = at + operation_text(op).len();
    lemma_joined_text(left, times, v);
    lemma_step_parts(s, at, tl, operator(times), tv);
    lemma_operation_text(s, at, left);
    lemma_value_at_text(s, q + 3, v);
    lemma_factor(s, q, times, v, end);
    assert(operation_from(s, q, left) == operation_from(s, end, joined(left, times, v)));
}

proof fn lemma_inline_space_run(s: Seq<char>, a: int, b: int)
    requires
        0 <= a <= b <= s.len(),
        forall|i: int| a <= i < b ==> is_inline_space(#[trigger] s[i]),
        b == s.len() || !is_inline_space(s[b]),
    ensures
        inline_space_end(s, a) == b,
    decreases b - a,
{
    if a < b {
        lemma_inline_space_run(s, a + 1, b);
    }
}

proof fn lemma_space_run(s: Seq<char>, a: int, b: int)
    requires
        0 <= a <= b <= s.len(),
        forall|i: int| a <= i < b ==> is_space(#[trigger] s[i]),
        b == s.len() || !is_space(s[b]),
    ensures
        space_end(s, a) == b,
    decreases b - a,
{
    if a < b {
        lemma_space_run(s, a + 1, b);
    }
}

proof fn lemma_dashes_run(s: Seq<char>, a: int, b: int)
    requires
        0 <= a <= b <= s.len(),
        forall|i: int| a <= i < b ==> #[trigger] s[i] == '-',
        b == s.len() || s[b] != '-',
    ensures
        dashes_end(s, a) == b,
    decreases b - a,
{
    if a < b {
        lemma_dashes_run(s, a + 1, b);
    }
}

proof fn lemma_line_run(s: Seq<char>, a: int, b: int)
    requires
        0 <= a <= b <= s.len(),
        forall|i: int| a <= i < b ==> #[trigger] s[i] != '\n',
        b == s.len() || s[b] == '\n',
    ensures
        line_end(s, a) == b,
    decreases b - a,
{
    if a < b {
        lemma_line_run(s, a + 1, b);
    }
}

/// Whether no line feed stands in the text.
pub open spec fn has_no_line_feed(c: Seq<char>) -> bool {
    forall|i: int| 0 <= i < c.len() ==> #[trigger] c[i] != '\n'
}

/// Whether a comment is read as it is behind an expression: it holds no line
/// feed, and it starts with neither a space nor a tab nor an operator.
pub open spec fn is_plain_comment(c: Seq<char>) -> bool {
    &&& has_no_line_feed(c)
    &&& c.len() > 0 ==> !is_inline_space(c[0]) && c[0] != '*' && c[0] != '/'
}

/// The comment of a line.
pub open spec fn comment_of(line: LineView) -> Seq<char> {
    match line {
        LineView::Operation { comment, .. } => comment,
        LineView::Subtotal { comment, .. } => comment,
    }
}

/// The parts of the row of a line, as they stand in a text that holds it:
/// spaces up to `lhs`, the left-hand side, a space at `gap`, the comment, and
/// a line feed at `end`.
proof fn lemma_entry_row_parts(s: Seq<char>, r: int, line: LineView, w: nat)
    requires
        holds(s, r, entry_row(line, w)),
        left_text(line).len() <= w,
    ensures
        ({
            let lhs = r + w - left_text(line).len();
            let gap = r + w;
            let end = gap + 1 + comment_of(line).len();
            &&& 0 <= r
            &&& end < s.len()
            &&& entry_row(line, w).len() == end + 1 - r
            &&& forall|i: int| r <= i < lhs ==> #[trigger] s[i] == ' '
            &&& holds(s, lhs, left_text(line))
            &&& s[gap] == ' '
            &&& holds(s, gap + 1, comment_of(line))
            &&& s[end] == '\n'
        }),
{
    reveal(holds);
    lemma_literals();
    let left = left_text(line);
    let comment = comment_of(line);
    let pad = repeated(' ', w - left.len());
    let t = entry_row(line, w);
    assert(t =~= pad + left + seq![' '] + comment + seq!['\n']);
    let p = pad.len() as int;
    assert(p == w - left.len());
    assert forall|i: int| r <= i < r + p implies #[trigger] s[i] == ' ' by {
        assert(s[r + (i - r)] == t[i - r]);
    }
    assert forall|i: int| 0 <= i < left.len() implies s[r + p + i] == #[trigger] left[i] by {
        assert(s[r + (p + i)] == t[p + i]);
    }
    assert(s[r + (w as int)] == t[w as int]);
    assert forall|i: int| 0 <= i < comment.len() implies s[r + w + 1 + i] == #[trigger] comment[i] by {
        assert(s[r + (w + 1 + i)] == t[w + 1 + i]);
    }
    let last = (w + 1 + comment.len()) as int;
    assert(s[r + last] == t[last]);
}

/// Whether a line is read as it is from its row.
pub open spec fn is_plain_line(line: LineView) -> bool {
    match line {
        LineView::Operation { operation, comment } => is_plain_operation(operation)
            && is_plain_comment(comment),
        LineView::Subtotal { comment, .. } => has_no_line_feed(comment),
    }
}

proof fn lemma_holds_index(s: Seq<char>, at: int, piece: Seq<char>, i: int)
    requires
        holds(s, at, piece),
        0 <= i < piece.len(),
    ensures
        0 <= at + i < s.len(),
        s[at + i] == piece[i],
{
    reveal(holds);
}

proof fn lemma_holds_subrange(s: Seq<char>, at: int, piece: Seq<char>)
    requires
        holds(s, at, piece),
    ensures
        0 <= at,
        at + piece.len() <= s.len(),
        s.subrange(at, at + piece.len()) == piece,
{
    reveal(holds);
    assert(s.subrange(at, at + piece.len()) =~= piece);
}

/// The comment behind an expression that ends at `gap` is read as it is.
proof fn lemma_comment_at_gap(s: Seq<char>, gap: int, comment: Seq<char>)
    requires
        0 <= gap,
        gap + 1 + comment.len() < s.len(),
        s[gap] == ' ',
        holds(s, gap + 1, comment),
        s[gap + 1 + comment.len()] == '\n',
        is_plain_comment(comment),
    ensures
        factor_at(s, gap) is None,
        comment_at(s, gap) == (comment, gap + 1 + comment.len()),
{
    let end = gap + 1 + comment.len();
    if comment.len() > 0 {
        lemma_holds_index(s, gap + 1, comment, 0);
    }
    assert(!is_inline_space(s[gap + 1]));
    assert(s[gap + 1] != '*' && s[gap + 1] != '/');
    assert(inline_space_end(s, gap + 1) == gap + 1);
    assert(inline_space_end(s, gap) == gap + 1);
    assert forall|i: int| gap + 1 <= i < end implies #[trigger] s[i] != '\n' by {
        lemma_holds_index(s, gap + 1, comment, i - gap - 1);
    }
    lemma_line_run(s, gap + 1, end);
    lemma_holds_subrange(s, gap + 1, comment);
}

/// The row of an expression line is read as that line, from its start or from
/// anywhere in the spaces in front of its left-hand side.
proof fn lemma_operation_row(s: Seq<char>, r: int, x: int, line: LineView, w: nat)
    requires
        line is Operation,
        is_plain_line(line),
        left_text(line).len() <= w,
        holds(s, r, entry_row(line, w)),
        r <= x <= r + w - left_text(line).len(),
    ensures
        line_at(s, x) == Ok::<(LineView, int), FailurePoint>(
            (line, r + entry_row(line, w).len() - 1),
        ),
{
    let op = line->operation;
    let comment = line->Operation_comment;
    let lhs = r + w - left_text(line).len();
    let gap = r + w;
    let end = gap + 1 + comment.len();
    lemma_entry_row_parts(s, r, line, w);
    lemma_operation_text(s, lhs, op);
    assert forall|i: int| x <= i < lhs implies is_inline_space(#[trigger] s[i]) by {}
    lemma_inline_space_run(s, x, lhs);
    lemma_comment_at_gap(s, gap, comment);
    assert(operation_from(s, gap, op) == (op, gap));
    assert(operation_at(s, x) == Ok::<(OperationView, int), FailurePoint>((op, gap)));
    assert(operation_line_at(s, x) == Ok::<(LineView, int), FailurePoint>((line, end)));
}

proof fn lemma_inline_space_end_bounds(s: Seq<char>, a: int, b: int)
    requires
        0 <= a <= b <= s.len(),
        b == s.len() || !is_inline_space(s[b]),
    ensures
        a <= inline_space_end(s, a) <= b,
    decreases b - a,
{
    if a < b && is_inline_space(s[a]) {
        lemma_inline_space_end_bounds(s, a + 1, b);
    }
}

proof fn lemma_value_text_has_no_line_feed(v: ValueView)
    ensures
        has_no_line_feed(value_text(v)),
{
    lemma_literals();
    match v {
        ValueView::Number(n) => {
            lemma_text_chars(normalized(rounded(n, 2)));
        },
        ValueView::Interval(lo, hi) => {
            let t1 = text(normalized(rounded(lo, 2)));
            let t2 = text(normalized(rounded(hi, 2)));
            lemma_text_chars(normalized(rounded(lo, 2)));
            lemma_text_chars(normalized(rounded(hi, 2)));
            let t = value_text(v);
            assert(t =~= seq!['['] + t1 + seq![',', ' '] + t2 + seq![']']);
            assert forall|i: int| 0 <= i < t.len() implies #[trigger] t[i] != '\n' by {
                if 1 <= i < 1 + t1.len() {
                    assert(t[i] == t1[i - 1]);
                } else if 3 + t1.len() <= i < 3 + t1.len() + t2.len() {
                    assert(t[i] == t2[i - 3 - t1.len()]);
                }
            }
        },
    }
}

/// No line feed stands in the row of a subtotal in front of the one that ends
/// it.
proof fn lemma_subtotal_row_is_one_line(s: Seq<char>, r: int, line: LineView, w: nat)
    requires
        line is Subtotal,
        is_plain_line(line),
        left_text(line).len() <= w,
        holds(s, r, entry_row(line, w)),
    ensures
        forall|i: int| r <= i < r + entry_row(line, w).len() - 1 ==> #[trigger] s[i] != '\n',
{
    let left = left_text(line);
    let comment = comment_of(line);
    let lhs = r + w - left.len();
    let gap = r + w;
    lemma_entry_row_parts(s, r, line, w);
    match line->value {
        Some(v) => {
            lemma_value_text_has_no_line_feed(v);
        },
        None => {},
    }
    assert forall|i: int| r <= i < r + entry_row(line, w).len() - 1 implies #[trigger] s[i]
        != '\n' by {
        if i < lhs {
        } else if i < gap {
            lemma_holds_index(s, lhs, left, i - lhs);
        } else if i == gap {
        } else {
            lemma_holds_index(s, gap + 1, comment, i - gap - 1);
        }
    }
}

/// The parts of the rows of a subtotal, as they stand in a text that holds
/// them: the rule, a line feed, the row of the line, and a line feed.
proof fn lemma_subtotal_rows_parts(s: Seq<char>, r: int, line: LineView, w: nat)
    requires
        line is Subtotal,
        holds(s, r, rows(line, w)),
    ensures
        0 <= r,
        rows(line, w).len() == w + 2 + entry_row(line, w).len(),
        r + rows(line, w).len() <= s.len(),
        forall|i: int| r <= i < r + w ==> #[trigger] s[i] == '-',
        s[r + w] == '\n',
        holds(s, r + w + 1, entry_row(line, w)),
        s[r + rows(line, w).len() - 1] == '\n',
{
    reveal(holds);
    lemma_literals();
    let rule = repeated('-', w as int);
    let row = entry_row(line, w);
    let t = rows(line, w);
    assert(t =~= rule + seq!['\n'] + row + seq!['\n']);
    assert forall|i: int| r <= i < r + w implies #[trigger] s[i] == '-' by {
        assert(s[r + (i - r)] == t[i - r]);
    }
    assert(s[r + (w as int)] == t[w as int]);
    assert forall|i: int| 0 <= i < row.len() implies s[r + w + 1 + i] == #[trigger] row[i] by {
        assert(s[r + (w + 1 + i)] == t[w + 1 + i]);
    }
    let last = (w + 1 + row.len()) as int;
    assert(s[r + last] == t[last]);
}

/// A rule of dashes is no expression.
proof fn lemma_rule_is_no_operation(s: Seq<char>, r: int, w: nat)
    requires
        0 <= r,
        w >= 1,
        r + w < s.len(),
        forall|i: int| r <= i < r + w ==> #[trigger] s[i] == '-',
        s[r + w] == '\n',
    ensures
        operation_line_at(s, r) is Err,
        dashes_end(s, r) == r + w,
{
    assert(s[r] == '-');
    assert(inline_space_end(s, r) == r);
    assert(whole_start(s, r) == r + 1);
    if w >= 2 {
        assert(s[r + 1] == '-');
    }
    assert(!is_digit(s[r + 1]));
    assert(digits_end(s, r + 1) == r + 1);
    assert(number_end(s, r) is None);
    assert(number_at(s, r) is Err);
    assert(interval_at(s, r) is Err);
    assert(value_at(s, r) is Err);
    assert(operation_at(s, r) is Err);
    lemma_dashes_run(s, r, r + w);
}

/// The result line of a subtotal is read to its end, whatever stands in it.
proof fn lemma_result_line(s: Seq<char>, r: int, line: LineView, w: nat)
    requires
        line is Subtotal,
        is_plain_line(line),
        left_text(line).len() <= w,
        w >= 1,
        holds(s, r, entry_row(line, w)),
    ensures
        match value_at(s, r) {
            Ok((_, e)) => comment_at(s, e).1 == r + entry_row(line, w).len() - 1,
            Err(_) => line_end(s, inline_space_end(s, r)) == r + entry_row(line, w).len() - 1,
        },
{
    let left = left_text(line);
    let lhs = r + w - left.len();
    let gap = r + w;
    let end = r + entry_row(line, w).len() - 1;
    lemma_entry_row_parts(s, r, line, w);
    lemma_subtotal_row_is_one_line(s, r, line, w);
    assert(!is_inline_space(s[end]));
    match value_at(s, r) {
        Ok((_, e)) => {
            if lhs > r {
                assert(s[r] == ' ');
                assert(whole_start(s, r) == r);
                assert(digits_end(s, r) == r);
                assert(number_at(s, r) is Err);
                assert(interval_at(s, r) is Err);
                assert(false);
            }
            let v = line->value->Some_0;
            assert(left == value_text(v));
            lemma_value_at_text(s, r, v);
            assert(e == gap);
            lemma_inline_space_end_bounds(s, gap + 1, end);
            assert(inline_space_end(s, gap) == inline_space_end(s, gap + 1));
            let c = inline_space_end(s, gap);
            assert forall|i: int| c <= i < end implies #[trigger] s[i] != '\n' by {}
            lemma_line_run(s, c, end);
        },
        Err(_) => {
            lemma_inline_space_end_bounds(s, r, end);
            let c = inline_space_end(s, r);
            assert forall|i: int| c <= i < end implies #[trigger] s[i] != '\n' by {}
            lemma_line_run(s, c, end);
        },
    }
}

/// The rows of a subtotal are read as a subtotal, up to the line feed that
/// ends its result line.
proof fn lemma_subtotal_rows(s: Seq<char>, r: int, line: LineView, w: nat)
    requires
        line is Subtotal,
        is_plain_line(line),
        left_text(line).len() <= w,
        w >= 1,
        holds(s, r, rows(line, w)),
    ensures
        line_at(s, r) matches Ok((again, end)) && again is Subtotal && end == r + rows(
            line,
            w,
        ).len() - 2,
{
    lemma_subtotal_rows_parts(s, r, line, w);
    lemma_rule_is_no_operation(s, r, w);
    let start = r + w + 1;
    lemma_entry_row_parts(s, start, line, w);
    assert(inline_space_end(s, r + w) == r + w);
    assert(is_line_break('\n'));
    assert(line_break_end(s, r + w) == Some(start));
    lemma_result_line(s, start, line, w);
    assert(subtotal_at(s, r) is Ok);
}

/// How many characters stand in the rows of a line in front of its first
/// character that is no space.
pub open spec fn lead(line: LineView, w: nat) -> int {
    match line {
        LineView::Operation { .. } => w - left_text(line).len(),
        LineView::Subtotal { .. } => 0,
    }
}

/// How many line feeds end the rows of a line.
pub open spec fn tail(line: LineView) -> int {
    match line {
        LineView::Operation { .. } => 1,
        LineView::Subtotal { .. } => 2,
    }
}

/// Whether `again` is what is read from the rows of `line`: an expression
/// line comes back as it is, and a subtotal as a subtotal.
pub open spec fn is_read_as(line: LineView, again: LineView) -> bool {
    match line {
        LineView::Operation { .. } => again == line,
        LineView::Subtotal { .. } => again is Subtotal,
    }
}

proof fn lemma_row_of_operation(s: Seq<char>, r: int, x: int, line: LineView, w: nat)
    requires
        line is Operation,
        is_plain_line(line),
        left_text(line).len() <= w,
        holds(s, r, entry_row(line, w)),
        r <= x <= r + w - left_text(line).len(),
    ensures
        0 <= r,
        r + entry_row(line, w).len() <= s.len(),
        r + w - left_text(line).len() < r + entry_row(line, w).len() - 1,
        is_space_run(s, r, r + w - left_text(line).len()),
        !is_space(s[r + w - left_text(line).len()]),
        is_space_run(s, r + entry_row(line, w).len() - 1, r + entry_row(line, w).len()),
        reads_line(s, x, line, r + entry_row(line, w).len() - 1),
        rows(line, w) == entry_row(line, w),
        lead(line, w) == w - left_text(line).len(),
        tail(line) == 1,
{
    reveal(is_space_run);
    reveal(reads_line);
    assert(is_space(' '));
    assert(is_space('\n'));
    lemma_entry_row_parts(s, r, line, w);
    lemma_operation_row(s, r, x, line, w);
    lemma_operation_text(s, r + w - left_text(line).len(), line->operation);
}

proof fn lemma_row_of_subtotal(s: Seq<char>, r: int, line: LineView, w: nat)
    requires
        line is Subtotal,
        is_plain_line(line),
        left_text(line).len() <= w,
        w >= 1,
        holds(s, r, rows(line, w)),
    ensures
        0 <= r,
        r + rows(line, w).len() <= s.len(),
        r < r + rows(line, w).len() - 2,
        !is_space(s[r]),
        is_space_run(s, r, r),
        is_space_run(s, r + rows(line, w).len() - 2, r + rows(line, w).len()),
        reads_line(s, r, line, r + rows(line, w).len() - 2),
        lead(line, w) == 0,
        tail(line) == 2,
{
    reveal(is_space_run);
    reveal(reads_line);
    assert(is_space('\n'));
    lemma_subtotal_rows_parts(s, r, line, w);
    lemma_entry_row_parts(s, r + w + 1, line, w);
    lemma_subtotal_rows(s, r, line, w);
    assert(s[r] == '-');
}

proof fn lemma_holds_in_front(s: Seq<char>, t: Seq<char>, at: int, piece: Seq<char>)
    requires
        holds(s, at, piece),
    ensures
        holds(s + t, at, piece),
{
    reveal(holds);
    assert forall|i: int| 0 <= i < piece.len() implies (s + t)[at + i] == #[trigger] piece[i] by {
        assert(s[at + i] == piece[i]);
    }
}

proof fn lemma_holds_at_end(s: Seq<char>, t: Seq<char>)
    ensures
        holds(s + t, s.len() as int, t),
{
    reveal(holds);
}

/// Where the rows of line `k` start in the text of a document.
pub open spec fn row_start(lines: Seq<LineView>, w: nat, k: int) -> int {
    rendered_rows(lines, w, k).len() as int
}

/// The text of the first `count` lines holds the rows of each of them, one
/// behind the other.
proof fn lemma_rows_in_text(lines: Seq<LineView>, w: nat, count: int, k: int)
    requires
        0 <= k < count,
    ensures
        row_start(lines, w, 0) == 0,
        row_start(lines, w, k + 1) == row_start(lines, w, k) + rows(lines[k], w).len(),
        row_start(lines, w, k + 1) <= row_start(lines, w, count),
        holds(
            rendered_rows(lines, w, count),
            row_start(lines, w, k),
            rows(lines[k], w),
        ),
    decreases count,
{
    let all = rendered_rows(lines, w, count);
    let before = rendered_rows(lines, w, count - 1);
    assert(all == before + rows(lines[count - 1], w));
    if k == count - 1 {
        lemma_holds_at_end(before, rows(lines[count - 1], w));
    } else {
        lemma_rows_in_text(lines, w, count - 1, k);
        lemma_holds_in_front(before, rows(lines[count - 1], w), row_start(lines, w, k), rows(lines[k], w));
    }
}

/// Whether the line that is read at `x` is what is read from the rows of
/// `line`, and ends at `end`.
#[verifier::opaque]
pub open spec fn reads_line(s: Seq<char>, x: int, line: LineView, end: int) -> bool {
    line_at(s, x) matches Ok((again, e)) && is_read_as(line, again) && e == end
}

/// Whether the characters of `s` from `a` up to `b` are white space.
#[verifier::opaque]
pub open spec fn is_space_run(s: Seq<char>, a: int, b: int) -> bool {
    forall|i: int| a <= i < b ==> is_space(#[trigger] s[i])
}

/// The rows of a line, as they stand in a text that holds them at `r`: white
/// space, the line, and white space. The line is read from its first
/// character, and an expression line from any of the spaces in front of it.
proof fn lemma_row_at(s: Seq<char>, r: int, x: int, line: LineView, w: nat)
    requires
        is_plain_line(line),
        left_text(line).len() <= w,
        w >= 1,
        holds(s, r, rows(line, w)),
        r <= x <= r + lead(line, w),
    ensures
        0 <= r,
        r + rows(line, w).len() <= s.len(),
        r + lead(line, w) < r + rows(line, w).len() - tail(line),
        is_space_run(s, r, r + lead(line, w)),
        !is_space(s[r + lead(line, w)]),
        is_space_run(s, r + rows(line, w).len() - tail(line), r + rows(line, w).len()),
        reads_line(s, x, line, r + rows(line, w).len() - tail(line)),
{
    if line is Operation {
        lemma_row_of_operation(s, r, x, line, w);
    } else {
        lemma_row_of_subtotal(s, r, line, w);
    }
}

proof fn lemma_space_runs_join(s: Seq<char>, a: int, b: int, c: int)
    requires
        is_space_run(s, a, b),
        is_space_run(s, b, c),
        0 <= a <= b <= c <= s.len(),
        c == s.len() || !is_space(s[c]),
    ensures
        space_end(s, a) == c,
{
    reveal(is_space_run);
    lemma_space_run(s, a, c);
}

/// Whether a document is read again from its text with the same expressions:
/// it has a balance, and each of its lines is read as it is.
pub open spec fn is_plain_document(lines: Seq<LineView>) -> bool {
    &&& has_balance(lines)
    &&& forall|i: int| 0 <= i < lines.len() ==> is_plain_line(#[trigger] lines[i])
}

/// Whether `again` is what is read from the text of `lines`: as many lines,
/// the expression lines as they are, and subtotals where subtotals were.
pub open spec fn same_entries(lines: Seq<LineView>, again: Seq<LineView>) -> bool {
    &&& again.len() == lines.len()
    &&& forall|i: int| 0 <= i < lines.len() ==> is_read_as(#[trigger] lines[i], again[i])
}

proof fn lemma_operation_text_is_not_empty(op: OperationView)
    ensures
        operation_text(op).len() >= 1,
    decreases op,
{
    match op {
        OperationView::Value(v) => {
            lemma_literals();
            match v {
                ValueView::Number(n) => {
                    lemma_text_chars(normalized(rounded(n, 2)));
                },
                ValueView::Interval(_, _) => {},
            }
        },
        OperationView::Mul(l, r) => {
            lemma_operation_text_is_not_empty(*l);
        },
        OperationView::Div(l, r) => {
            lemma_operation_text_is_not_empty(*l);
        },
    }
}

/// Reading the text of a document from line `k` on, behind what was read of
/// the lines in front of it, gives what is read of the whole document.
proof fn lemma_lines(lines: Seq<LineView>, w: nat, k: int, x: int, done: Seq<LineView>)
    requires
        is_plain_document(lines),
        w == column_width(lines),
        0 <= k <= lines.len(),
        done.len() == k,
        forall|i: int| 0 <= i < k ==> is_read_as(#[trigger] lines[i], done[i]),
        k == lines.len() ==> x == row_start(lines, w, k),
        k < lines.len() ==> row_start(lines, w, k) <= x <= row_start(lines, w, k) + lead(
            lines[k],
            w,
        ),
    ensures
        lines_from(rendered_rows(lines, w, lines.len() as int), x, done) matches Ok(again)
            && same_entries(lines, again),
    decreases lines.len() - k,
{
    let n = lines.len() as int;
    let s = rendered_rows(lines, w, n);
    if k < n {
        lemma_column_holds_every_line(lines, 0);
        lemma_operation_text_is_not_empty(lines[0]->operation);
        lemma_column_holds_every_line(lines, k);
        lemma_rows_in_text(lines, w, n, k);
        let r = row_start(lines, w, k);
        let next = row_start(lines, w, k + 1);
        lemma_row_at(s, r, x, lines[k], w);
        reveal(reads_line);
        let again = line_at(s, x)->Ok_0.0;
        let stop = next - tail(lines[k]);
        let to = if k + 1 < n {
            next + lead(lines[k + 1], w)
        } else {
            next
        };
        if k + 1 < n {
            lemma_column_holds_every_line(lines, k + 1);
            lemma_rows_in_text(lines, w, n, k + 1);
            lemma_row_at(s, next, next, lines[k + 1], w);
        }
        if k + 1 == n {
            assert(is_space_run(s, next, to)) by {
                reveal(is_space_run);
            }
        }
        lemma_space_runs_join(s, stop, next, to);
        let more = done.push(again);
        assert forall|i: int| 0 <= i < k + 1 implies is_read_as(#[trigger] lines[i], more[i]) by {
            if i < k {
                assert(more[i] == done[i]);
            }
        }
        lemma_lines(lines, w, k + 1, to, more);
        assert(lines_from(s, x, done) == lines_from(s, to, more));
    }
}

/// The text of a document that is read as it is spells a document with the
/// same expression lines, and with subtotals where it has subtotals.
pub proof fn law_rendered_is_read_back(lines: Seq<LineView>)
    requires
        is_plain_document(lines),
    ensures
        document(rendered(lines)) matches Ok(again) && same_entries(lines, again),
{
    let w = column_width(lines);
    lemma_column_holds_every_line(lines, 0);
    assert(rendered_rows(lines, w, 0).len() == 0);
    assert(row_start(lines, w, 0) == 0);
    lemma_lines(lines, w, 0, 0, Seq::empty());
}

/// What is read from the text of a document has the balance of the document.
proof fn lemma_balance_of_same_entries(lines: Seq<LineView>, again: Seq<LineView>, count: int)
    requires
        has_balance(lines),
        same_entries(lines, again),
        1 <= count <= lines.len(),
    ensures
        has_balance(again),
        balance(again, count) == balance(lines, count),
    decreases count,
{
    assert(is_read_as(lines[0], again[0]));
    if count > 1 {
        lemma_balance_of_same_entries(lines, again, count - 1);
        assert(is_read_as(lines[count - 1], again[count - 1]));
    }
}

/// Printing a settled document and reading it again changes no subtotal: the
/// text is a document, its run does not fail, and it writes into every
/// subtotal the value that stood there.
///
/// This holds of a document that has a balance, whose run does not fail, whose
/// numbers printing leaves as they are, whose operators each have a value to
/// their right, and whose comments hold no line feed and, behind an
/// expression, start with neither a space nor a tab nor an operator.
pub proof fn law_settled_text_settles_the_same(lines: Seq<LineView>)
    requires
        is_plain_document(lines),
        failure(lines) is None,
    ensures
        document(rendered(settled(lines))) matches Ok(again) && failure(again) is None
            && again.len() == lines.len() && forall|i: int|
            0 <= i < lines.len() && lines[i] is Subtotal ==> (#[trigger] settled(again)[i])
                is Subtotal && settled(again)[i]->value == settled(lines)[i]->value,
{
    let n = lines.len() as int;
    let once = settled(lines);
    assert(has_balance(once));
    assert forall|i: int| 0 <= i < once.len() implies is_plain_line(#[trigger] once[i]) by {
        assert(is_plain_line(lines[i]));
    }
    law_rendered_is_read_back(once);
    let again = document(rendered(once))->Ok_0;
    lemma_balance_of_same_entries(once, again, n);
    lemma_balance_of_settled(lines, n);
    assert forall|i: int| 0 <= i < n && lines[i] is Subtotal implies (#[trigger] settled(
        again,
    )[i]) is Subtotal && settled(again)[i]->value == settled(lines)[i]->value by {
        assert(is_read_as(once[i], again[i]));
        assert(i >= 1);
        lemma_balance_of_same_entries(once, again, i);
        lemma_balance_of_settled(lines, i);
        if balance(lines, i) is Err {
            lemma_balance_stays_failed(lines, i, n);
        }
    }
}

} // verus!
