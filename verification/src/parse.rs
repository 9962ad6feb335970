//! The grammar of a ledger, read from text.
//!
//! A document is a run of lines. A line is an expression with an optional
//! comment, or a subtotal: a rule of dashes on a line of its own, and below it
//! a line with an optional value and a comment. Every function here reads one
//! piece of that grammar at a position of the text, counted in characters, and
//! says where the piece ends.

use crate::decimal::{
    digits_end, from_text, has_fraction, is_digit, is_number, number_end, number_read,
    whole_start, Decimal,
};
use crate::line::{document_view, Line, LineView, Operation, OperationView};
use crate::value::{Value, ValueView};
use vstd::prelude::*;
use vstd::string::{StrSliceExecFns, StringExecFns};

verus! {

/// What the grammar asked for where the text did not give it.
#[derive(Clone, Copy, Debug, PartialEq, Eq, Structural)]
pub enum Expected {
    Number,
    Interval,
    ResultLine,
}

/// A piece of the grammar that the text does not hold: the position, in
/// characters, where it went wrong, and what was expected there.
#[derive(Clone, Copy, Debug, PartialEq, Eq, Structural)]
pub struct Failure {
    pub at: usize,
    pub expected: Expected,
}

/// A failure as mathematics sees it.
pub ghost struct FailurePoint {
    pub at: int,
    pub expected: Expected,
}

impl View for Failure {
    type V = FailurePoint;

    open spec fn view(&self) -> FailurePoint {
        FailurePoint { at: self.at as int, expected: self.expected }
    }
}

/// A space or a tab.
pub open spec fn is_inline_space(c: char) -> bool {
    c == ' ' || c == '\t'
}

/// A character that Unicode counts as white space.
pub open spec fn is_space(c: char) -> bool {
    let u = c as u32;
    ||| 0x09 <= u <= 0x0D
    ||| u == 0x20
    ||| u == 0x85
    ||| u == 0xA0
    ||| u == 0x1680
    ||| 0x2000 <= u <= 0x200A
    ||| u == 0x2028
    ||| u == 0x2029
    ||| u == 0x202F
    ||| u == 0x205F
    ||| u == 0x3000
}

/// A character that breaks a line by itself.
pub open spec fn is_line_break(c: char) -> bool {
    let u = c as u32;
    ||| 0x0A <= u <= 0x0D
    ||| u == 0x85
    ||| u == 0x2028
    ||| u == 0x2029
}

/// Where the run of spaces and tabs that starts at `from` ends.
pub open spec fn inline_space_end(s: Seq<char>, from: int) -> int
    decreases s.len() - from,
{
    if 0 <= from < s.len() && is_inline_space(s[from]) {
        inline_space_end(s, from + 1)
    } else {
        from
    }
}

/// Where the run of white space that starts at `from` ends.
pub open spec fn space_end(s: Seq<char>, from: int) -> int
    decreases s.len() - from,
{
    if 0 <= from < s.len() && is_space(s[from]) {
        space_end(s, from + 1)
    } else {
        from
    }
}

/// Where the run of dashes that starts at `from` ends.
pub open spec fn dashes_end(s: Seq<char>, from: int) -> int
    decreases s.len() - from,
{
    if 0 <= from < s.len() && s[from] == '-' {
        dashes_end(s, from + 1)
    } else {
        from
    }
}

/// Where the line that holds position `from` ends: at the next line feed, or
/// at the end of the text.
pub open spec fn line_end(s: Seq<char>, from: int) -> int
    decreases s.len() - from,
{
    if 0 <= from < s.len() && s[from] != '\n' {
        line_end(s, from + 1)
    } else {
        from
    }
}

/// Where the line break at `from` ends: a carriage return takes a line feed
/// behind it along. `None` where no line break stands there.
pub open spec fn line_break_end(s: Seq<char>, from: int) -> Option<int> {
    if 0 <= from < s.len() && is_line_break(s[from]) {
        if s[from] == '\r' && from + 1 < s.len() && s[from + 1] == '\n' {
            Some(from + 2)
        } else {
            Some(from + 1)
        }
    } else {
        None
    }
}

/// Of two failures the one that got further; the first where they got equally
/// far.
pub open spec fn further(first: FailurePoint, second: FailurePoint) -> FailurePoint {
    if second.at > first.at {
        second
    } else {
        first
    }
}

/// The number at `from`: an optional `-`, digits, and optionally a point and
/// digits. It fails where no digit stands at its start, and at `from` where
/// no decimal is read from its digits.
pub open spec fn number_at(s: Seq<char>, from: int) -> Result<((int, nat), int), FailurePoint> {
    match number_end(s, from) {
        Some(end) => match number_read(s.subrange(from, end)) {
            Some(d) => Ok((d, end)),
            None => Err(FailurePoint { at: from, expected: Expected::Number }),
        },
        None => Err(FailurePoint { at: whole_start(s, from), expected: Expected::Number }),
    }
}

/// The interval at `from`: `[`, spaces or tabs, a number, `,`, white space, a
/// number, white space, `]`.
pub open spec fn interval_at(s: Seq<char>, from: int) -> Result<(ValueView, int), FailurePoint> {
    if 0 <= from < s.len() && s[from] == '[' {
        match number_at(s, inline_space_end(s, from + 1)) {
            Ok((lo, comma)) => {
                if comma < s.len() && s[comma] == ',' {
                    match number_at(s, space_end(s, comma + 1)) {
                        Ok((hi, after)) => {
                            let close = space_end(s, after);
                            if close < s.len() && s[close] == ']' {
                                Ok((ValueView::Interval(lo, hi), close + 1))
                            } else {
                                Err(FailurePoint { at: close, expected: Expected::Interval })
                            }
                        },
                        Err(f) => Err(f),
                    }
                } else {
                    Err(FailurePoint { at: comma, expected: Expected::Interval })
                }
            },
            Err(f) => Err(f),
        }
    } else {
        Err(FailurePoint { at: from, expected: Expected::Interval })
    }
}

/// The value at `from`: a number, or else an interval.
pub open spec fn value_at(s: Seq<char>, from: int) -> Result<(ValueView, int), FailurePoint> {
    match number_at(s, from) {
        Ok((n, end)) => Ok((ValueView::Number(n), end)),
        Err(first) => match interval_at(s, from) {
            Ok(r) => Ok(r),
            Err(second) => Err(further(first, second)),
        },
    }
}

/// The operand that `*` or `/` joins to an expression.
pub ghost struct Factor {
    pub times: bool,
    pub value: ValueView,
    pub end: int,
}

/// The operator and operand at `from`: spaces or tabs, `*` or `/`, spaces or
/// tabs, a value. `None` where one of them is missing.
pub open spec fn factor_at(s: Seq<char>, from: int) -> Option<Factor> {
    let sign = inline_space_end(s, from);
    if 0 <= sign < s.len() && (s[sign] == '*' || s[sign] == '/') {
        match value_at(s, inline_space_end(s, sign + 1)) {
            Ok((value, end)) => Some(Factor { times: s[sign] == '*', value, end }),
            Err(_) => None,
        }
    } else {
        None
    }
}

/// `left`, multiplied or divided by `value`.
pub open spec fn joined(left: OperationView, times: bool, value: ValueView) -> OperationView {
    if times {
        OperationView::Mul(Box::new(left), Box::new(OperationView::Value(value)))
    } else {
        OperationView::Div(Box::new(left), Box::new(OperationView::Value(value)))
    }
}

/// The expression that starts with `left` and goes on at `from` with as many
/// operators and operands as stand there. Each joins what stands to its left:
/// `a * b / c` is `(a * b) / c`.
pub open spec fn operation_from(s: Seq<char>, from: int, left: OperationView) -> (
    OperationView,
    int,
)
    decreases s.len() - from,
{
    match factor_at(s, from) {
        Some(f) => {
            if from < f.end <= s.len() {
                operation_from(s, f.end, joined(left, f.times, f.value))
            } else {
                (left, from)
            }
        },
        None => (left, from),
    }
}

/// The expression at `from`: spaces or tabs, a value, and the operators and
/// operands behind it.
pub open spec fn operation_at(s: Seq<char>, from: int) -> Result<
    (OperationView, int),
    FailurePoint,
> {
    match value_at(s, inline_space_end(s, from)) {
        Ok((v, end)) => Ok(operation_from(s, end, OperationView::Value(v))),
        Err(f) => Err(f),
    }
}

/// The comment behind a value that ends at `from`, and where it ends: what
/// follows one or more spaces or tabs, up to the end of the line. Without a
/// space or tab there is no comment.
pub open spec fn comment_at(s: Seq<char>, from: int) -> (Seq<char>, int) {
    let start = inline_space_end(s, from);
    if start > from {
        (s.subrange(start, line_end(s, start)), line_end(s, start))
    } else {
        (Seq::empty(), from)
    }
}

/// The expression line at `from`: an expression and its comment.
pub open spec fn operation_line_at(s: Seq<char>, from: int) -> Result<
    (LineView, int),
    FailurePoint,
> {
    match operation_at(s, from) {
        Ok((operation, end)) => Ok(
            (
                LineView::Operation { operation, comment: comment_at(s, end).0 },
                comment_at(s, end).1,
            ),
        ),
        Err(f) => Err(f),
    }
}

/// The subtotal at `from`: dashes, spaces or tabs and a line break, then the
/// result line. That is a value with its comment, or else spaces or tabs and
/// what follows them up to the end of the line, as the comment of a subtotal
/// without a value.
pub open spec fn subtotal_at(s: Seq<char>, from: int) -> Result<(LineView, int), FailurePoint> {
    let rule_end = inline_space_end(s, dashes_end(s, from));
    match line_break_end(s, rule_end) {
        Some(start) => match value_at(s, start) {
            Ok((v, end)) => Ok(
                (
                    LineView::Subtotal { value: Some(v), comment: comment_at(s, end).0 },
                    comment_at(s, end).1,
                ),
            ),
            Err(_) => {
                let text = inline_space_end(s, start);
                Ok(
                    (
                        LineView::Subtotal {
                            value: None,
                            comment: s.subrange(text, line_end(s, text)),
                        },
                        line_end(s, text),
                    ),
                )
            },
        },
        None => Err(FailurePoint { at: rule_end, expected: Expected::ResultLine }),
    }
}

/// The line at `from`: an expression line, or else a subtotal.
pub open spec fn line_at(s: Seq<char>, from: int) -> Result<(LineView, int), FailurePoint> {
    match operation_line_at(s, from) {
        Ok(r) => Ok(r),
        Err(first) => match subtotal_at(s, from) {
            Ok(r) => Ok(r),
            Err(second) => Err(further(first, second)),
        },
    }
}

/// The lines of the text from `from` to its end, behind the lines `done`: each
/// line is followed by any white space. The first position at which no line
/// stands, short of the end of the text, fails the whole.
pub open spec fn lines_from(s: Seq<char>, from: int, done: Seq<LineView>) -> Result<
    Seq<LineView>,
    FailurePoint,
>
    decreases s.len() - from,
{
    if from >= s.len() {
        Ok(done)
    } else {
        match line_at(s, from) {
            Ok((line, end)) => {
                if from < space_end(s, end) <= s.len() {
                    lines_from(s, space_end(s, end), done.push(line))
                } else {
                    Ok(done.push(line))
                }
            },
            Err(f) => Err(f),
        }
    }
}

/// The document that a text spells.
pub open spec fn document(s: Seq<char>) -> Result<Seq<LineView>, FailurePoint> {
    lines_from(s, 0, Seq::empty())
}

/// A text and its characters.
pub struct Source<'a> {
    text: &'a str,
    chars: Vec<char>,
}

impl<'a> View for Source<'a> {
    type V = Seq<char>;

    closed spec fn view(&self) -> Seq<char> {
        self.chars@
    }
}

impl<'a> Source<'a> {
    #[verifier::type_invariant]
    spec fn consistent(self) -> bool {
        self.chars@ == self.text@
    }

    /// The text `text`, ready to be read.
    pub fn new(text: &'a str) -> (src: Source<'a>)
        ensures
            src@ == text@,
    {
        let mut chars: Vec<char> = Vec::new();
        for c in it: text.chars()
            invariant
                it.seq() == text@,
                chars@ == it.seq().take(it.index() as int),
        {
            chars.push(c);
        }
        assert(chars@ =~= text@);
        Source { text, chars }
    }

    /// How many characters the text has.
    pub fn len(&self) -> (n: usize)
        ensures
            n == self@.len(),
    {
        self.chars.len()
    }

    /// The text from character `from` to character `to`. This counts the
    /// characters from the start of the text.
    fn slice(&self, from: usize, to: usize) -> (t: &'a str)
        requires
            from <= to <= self@.len(),
        ensures
            t@ == self@.subrange(from as int, to as int),
    {
        proof {
            use_type_invariant(self);
        }
        self.text.substring_char(from, to)
    }

    fn inline_space_end(&self, from: usize) -> (end: usize)
        ensures
            end == inline_space_end(self@, from as int),
            from <= end,
            from <= self@.len() ==> end <= self@.len(),
    {
        let n = self.chars.len();
        let mut i = from;
        while i < n && (self.chars[i] == ' ' || self.chars[i] == '\t')
            invariant
                from <= i,
                n == self@.len(),
                from <= n ==> i <= n,
                inline_space_end(self@, from as int) == inline_space_end(self@, i as int),
            decreases n - i,
        {
            i += 1;
        }
        i
    }

    fn space_end(&self, from: usize) -> (end: usize)
        ensures
            end == space_end(self@, from as int),
            from <= end,
            from <= self@.len() ==> end <= self@.len(),
    {
        let n = self.chars.len();
        let mut i = from;
        while i < n && space(self.chars[i])
            invariant
                from <= i,
                n == self@.len(),
                from <= n ==> i <= n,
                space_end(self@, from as int) == space_end(self@, i as int),
            decreases n - i,
        {
            i += 1;
        }
        i
    }

    fn dashes_end(&self, from: usize) -> (end: usize)
        ensures
            end == dashes_end(self@, from as int),
            from <= end,
            from <= self@.len() ==> end <= self@.len(),
    {
        let n = self.chars.len();
        let mut i = from;
        while i < n && self.chars[i] == '-'
            invariant
                from <= i,
                n == self@.len(),
                from <= n ==> i <= n,
                dashes_end(self@, from as int) == dashes_end(self@, i as int),
            decreases n - i,
        {
            i += 1;
        }
        i
    }

    fn digits_end(&self, from: usize) -> (end: usize)
        ensures
            end == digits_end(self@, from as int),
            from <= end,
            from <= self@.len() ==> end <= self@.len(),
    {
        let n = self.chars.len();
        let mut i = from;
        while i < n && digit(self.chars[i])
            invariant
                from <= i,
                n == self@.len(),
                from <= n ==> i <= n,
                digits_end(self@, from as int) == digits_end(self@, i as int),
            decreases n - i,
        {
            i += 1;
        }
        i
    }

    fn line_end(&self, from: usize) -> (end: usize)
        ensures
            end == line_end(self@, from as int),
            from <= end,
            from <= self@.len() ==> end <= self@.len(),
    {
        let n = self.chars.len();
        let mut i = from;
        while i < n && self.chars[i] != '\n'
            invariant
                from <= i,
                n == self@.len(),
                from <= n ==> i <= n,
                line_end(self@, from as int) == line_end(self@, i as int),
            decreases n - i,
        {
            i += 1;
        }
        i
    }

    /// Whether the character `c` stands at position `at`.
    fn has(&self, at: usize, c: char) -> (b: bool)
        ensures
            b == (at < self@.len() && self@[at as int] == c),
            b ==> at < usize::MAX,
    {
        at < self.chars.len() && self.chars[at] == c
    }
}

fn digit(c: char) -> (b: bool)
    ensures
        b == is_digit(c),
{
    '0' <= c && c <= '9'
}

fn space(c: char) -> (b: bool)
    ensures
        b == is_space(c),
{
    let u = c as u32;
    (0x09 <= u && u <= 0x0D) || u == 0x20 || u == 0x85 || u == 0xA0 || u == 0x1680 || (0x2000 <= u
        && u <= 0x200A) || u == 0x2028 || u == 0x2029 || u == 0x202F || u == 0x205F || u == 0x3000
}

fn line_break(c: char) -> (b: bool)
    ensures
        b == is_line_break(c),
{
    let u = c as u32;
    (0x0A <= u && u <= 0x0D) || u == 0x85 || u == 0x2028 || u == 0x2029
}

/// What a reading function returns, as mathematics sees it.
pub open spec fn parsed<T: View>(r: Result<(T, usize), Failure>) -> Result<
    (T::V, int),
    FailurePoint,
> {
    match r {
        Ok((v, end)) => Ok((v@, end as int)),
        Err(f) => Err(f@),
    }
}

proof fn lemma_digits_end_bounds(s: Seq<char>, from: int)
    ensures
        from <= digits_end(s, from),
        from <= s.len() ==> digits_end(s, from) <= s.len(),
    decreases s.len() - from,
{
    if 0 <= from < s.len() && is_digit(s[from]) {
        lemma_digits_end_bounds(s, from + 1);
    }
}

/// A run of digits, seen through a cut of the text, ends where it ends in the
/// text, or where the cut ends.
proof fn lemma_digits_end_of_slice(s: Seq<char>, a: int, b: int, k: int)
    requires
        0 <= a <= b <= s.len(),
        0 <= k <= b - a,
    ensures
        digits_end(s.subrange(a, b), k) == if digits_end(s, a + k) < b {
            digits_end(s, a + k) - a
        } else {
            b - a
        },
    decreases b - a - k,
{
    let t = s.subrange(a, b);
    if k < b - a && is_digit(t[k]) {
        lemma_digits_end_of_slice(s, a, b, k + 1);
    } else if k == b - a {
        lemma_digits_end_bounds(s, b);
    }
}

/// The text of a number is a number from end to end.
proof fn lemma_number_slice(s: Seq<char>, from: int, end: int)
    requires
        0 <= from <= s.len(),
        number_end(s, from) == Some(end),
    ensures
        from < end <= s.len(),
        is_number(s.subrange(from, end)),
{
    let start = whole_start(s, from);
    let point = digits_end(s, start);
    lemma_digits_end_bounds(s, start);
    lemma_digits_end_bounds(s, point + 1);
    let t = s.subrange(from, end);
    assert(whole_start(t, 0) == start - from);
    lemma_digits_end_of_slice(s, from, end, start - from);
    if has_fraction(s, from) {
        lemma_digits_end_of_slice(s, from, end, point + 1 - from);
        assert(t[point - from] == s[point]);
    }
}

fn read_number(src: &Source, from: usize) -> (r: Result<(Decimal, usize), Failure>)
    ensures
        parsed(r) == number_at(src@, from as int),
        r matches Ok((_, end)) ==> from < end <= src@.len(),
        r matches Err(f) ==> from <= f.at && (from <= src@.len() ==> f.at <= src@.len()),
{
    let start = if src.has(from, '-') {
        from + 1
    } else {
        from
    };
    let point = src.digits_end(start);
    if point == start {
        return Err(Failure { at: start, expected: Expected::Number });
    }
    let mut end = point;
    if src.has(point, '.') {
        let fraction_end = src.digits_end(point + 1);
        if fraction_end > point + 1 {
            end = fraction_end;
        }
    }
    proof {
        lemma_number_slice(src@, from as int, end as int);
    }
    match from_text(src.slice(from, end)) {
        Some(d) => Ok((d, end)),
        None => Err(Failure { at: from, expected: Expected::Number }),
    }
}

fn read_interval(src: &Source, from: usize) -> (r: Result<(Value, usize), Failure>)
    ensures
        parsed(r) == interval_at(src@, from as int),
        r matches Ok((_, end)) ==> from < end <= src@.len(),
        r matches Err(f) ==> from <= f.at && (from <= src@.len() ==> f.at <= src@.len()),
{
    if !src.has(from, '[') {
        return Err(Failure { at: from, expected: Expected::Interval });
    }
    let (lo, comma) = match read_number(src, src.inline_space_end(from + 1)) {
        Ok(r) => r,
        Err(f) => { return Err(f); },
    };
    if !src.has(comma, ',') {
        return Err(Failure { at: comma, expected: Expected::Interval });
    }
    let (hi, after) = match read_number(src, src.space_end(comma + 1)) {
        Ok(r) => r,
        Err(f) => { return Err(f); },
    };
    let close = src.space_end(after);
    if !src.has(close, ']') {
        return Err(Failure { at: close, expected: Expected::Interval });
    }
    Ok((Value::Interval(lo, hi), close + 1))
}

/// Reads the value at `from`: a number or an interval.
pub fn parse_value(src: &Source, from: usize) -> (r: Result<(Value, usize), Failure>)
    ensures
        parsed(r) == value_at(src@, from as int),
        r matches Ok((_, end)) ==> from < end <= src@.len(),
        r matches Err(f) ==> from <= f.at && (from <= src@.len() ==> f.at <= src@.len()),
{
    match read_number(src, from) {
        Ok((n, end)) => Ok((Value::Number(n), end)),
        Err(first) => match read_interval(src, from) {
            Ok(r) => Ok(r),
            Err(second) => Err(
                if second.at > first.at {
                    second
                } else {
                    first
                },
            ),
        },
    }
}

/// Reads the expression at `from`: values joined by `*` and `/`, each
/// operator applied to all that stands to its left.
pub fn parse_operation(src: &Source, from: usize) -> (r: Result<(Operation, usize), Failure>)
    ensures
        parsed(r) == operation_at(src@, from as int),
        r matches Ok((_, end)) ==> from < end <= src@.len(),
        r matches Err(f) ==> from <= f.at && (from <= src@.len() ==> f.at <= src@.len()),
{
    let (first, first_end) = match parse_value(src, src.inline_space_end(from)) {
        Ok(r) => r,
        Err(f) => { return Err(f); },
    };
    let mut left = Operation::Value(first);
    let mut at = first_end;
    loop
        invariant
            from < at <= src@.len(),
            operation_from(src@, at as int, left@) == operation_from(
                src@,
                first_end as int,
                OperationView::Value(first@),
            ),
        ensures
            from < at <= src@.len(),
            operation_from(src@, first_end as int, OperationView::Value(first@)) == (
                left@,
                at as int,
            ),
        decreases src@.len() - at,
    {
        let sign = src.inline_space_end(at);
        let times = src.has(sign, '*');
        if !times && !src.has(sign, '/') {
            assert(factor_at(src@, at as int) is None);
            break ;
        }
        let (value, end) = match parse_value(src, src.inline_space_end(sign + 1)) {
            Ok(r) => r,
            Err(_) => {
                assert(factor_at(src@, at as int) is None);
                break ;
            },
        };
        let ghost before = left@;
        left = if times {
            Operation::Mul(Box::new(left), Box::new(Operation::Value(value)))
        } else {
            Operation::Div(Box::new(left), Box::new(Operation::Value(value)))
        };
        proof {
            assert(factor_at(src@, at as int) == Some(
                Factor { times, value: value@, end: end as int },
            ));
            assert(Operation::Value(value)@ == OperationView::Value(value@));
            assert(left@ == joined(before, times, value@));
            assert(operation_from(src@, at as int, before) == operation_from(
                src@,
                end as int,
                left@,
            ));
        }
        at = end;
    }
    Ok((left, at))
}

/// Reads the comment behind a value that ends at `from`.
fn read_comment(src: &Source, from: usize) -> (r: (String, usize))
    requires
        from <= src@.len(),
    ensures
        (r.0@, r.1 as int) == comment_at(src@, from as int),
        from <= r.1 <= src@.len(),
{
    let start = src.inline_space_end(from);
    if start > from {
        let end = src.line_end(start);
        (String::from_str(src.slice(start, end)), end)
    } else {
        (String::new(), from)
    }
}

/// Reads the expression line at `from`: an expression and the comment behind
/// it.
pub fn parse_operation_line(src: &Source, from: usize) -> (r: Result<(Line, usize), Failure>)
    ensures
        parsed(r) == operation_line_at(src@, from as int),
        r matches Ok((_, end)) ==> from < end <= src@.len(),
        r matches Err(f) ==> from <= f.at && (from <= src@.len() ==> f.at <= src@.len()),
{
    match parse_operation(src, from) {
        Ok((operation, end)) => {
            let (comment, line_end) = read_comment(src, end);
            Ok((Line::Operation { operation, comment }, line_end))
        },
        Err(f) => Err(f),
    }
}

/// Reads the subtotal at `from`: a rule of dashes on a line of its own, and
/// the result line below it.
pub fn parse_subtotal(src: &Source, from: usize) -> (r: Result<(Line, usize), Failure>)
    ensures
        parsed(r) == subtotal_at(src@, from as int),
        r matches Ok((_, end)) ==> from < end <= src@.len(),
        r matches Err(f) ==> from <= f.at && (from <= src@.len() ==> f.at <= src@.len()),
{
    let rule_end = src.inline_space_end(src.dashes_end(from));
    let n = src.len();
    if rule_end >= n || !line_break(src.chars[rule_end]) {
        return Err(Failure { at: rule_end, expected: Expected::ResultLine });
    }
    let start = if src.chars[rule_end] == '\r' && src.has(rule_end + 1, '\n') {
        rule_end + 2
    } else {
        rule_end + 1
    };
    match parse_value(src, start) {
        Ok((v, end)) => {
            let (comment, line_end) = read_comment(src, end);
            Ok((Line::Subtotal { value: Some(v), comment }, line_end))
        },
        Err(_) => {
            let text = src.inline_space_end(start);
            let end = src.line_end(text);
            let comment = String::from_str(src.slice(text, end));
            Ok((Line::Subtotal { value: None, comment }, end))
        },
    }
}

/// Reads the line at `from`: an expression line or a subtotal.
pub fn parse_line(src: &Source, from: usize) -> (r: Result<(Line, usize), Failure>)
    ensures
        parsed(r) == line_at(src@, from as int),
        r matches Ok((_, end)) ==> from < end <= src@.len(),
        r matches Err(f) ==> from <= f.at && (from <= src@.len() ==> f.at <= src@.len()),
{
    match parse_operation_line(src, from) {
        Ok(r) => Ok(r),
        Err(first) => match parse_subtotal(src, from) {
            Ok(r) => Ok(r),
            Err(second) => Err(
                if second.at > first.at {
                    second
                } else {
                    first
                },
            ),
        },
    }
}

/// Why a text is no document: what was expected, and the bytes of the text,
/// from `start` up to `end`, where it was expected.
#[derive(Clone, Copy, Debug, PartialEq, Eq, Structural)]
pub struct ParseError {
    pub expected: Expected,
    pub start: usize,
    pub end: usize,
}

/// How many bytes the first `at` characters of a text take.
pub open spec fn byte_offset(s: Seq<char>, at: int) -> nat {
    vstd::utf8::encode_utf8(s.subrange(0, at)).len()
}

/// Where the character behind position `at` starts: `at` itself at the end of
/// the text.
pub open spec fn next_position(s: Seq<char>, at: int) -> int {
    if at < s.len() {
        at + 1
    } else {
        at
    }
}

/// Whether `e` reports the failure `f` in the text `s`: it covers the
/// character at which the grammar failed, or nothing at the end of the text.
pub open spec fn reports(e: ParseError, s: Seq<char>, f: FailurePoint) -> bool {
    &&& e.expected == f.expected
    &&& e.start == byte_offset(s, f.at)
    &&& e.end == byte_offset(s, next_position(s, f.at))
}

/// The name of what was expected.
pub open spec fn label_text(expected: Expected) -> Seq<char> {
    match expected {
        Expected::Number => "number"@,
        Expected::Interval => "interval"@,
        Expected::ResultLine => "result line"@,
    }
}

impl ParseError {
    /// The name of what was expected.
    pub fn label(&self) -> (t: String)
        ensures
            t@ == label_text(self.expected),
    {
        match self.expected {
            Expected::Number => String::from_str("number"),
            Expected::Interval => String::from_str("interval"),
            Expected::ResultLine => String::from_str("result line"),
        }
    }

    /// What went wrong, in words: `expected` and the name of what was.
    pub fn message(&self) -> (t: String)
        ensures
            t@ == "expected "@ + label_text(self.expected),
    {
        let mut t = String::from_str("expected ");
        t.append(self.label().as_str());
        t
    }
}

impl<'a> Source<'a> {
    fn byte_offset(&self, at: usize) -> (offset: usize)
        requires
            at <= self@.len(),
        ensures
            offset == byte_offset(self@, at as int),
    {
        self.slice(0, at).as_bytes().len()
    }

    fn error(&self, f: Failure) -> (e: ParseError)
        requires
            f.at <= self@.len(),
        ensures
            reports(e, self@, f@),
    {
        let next = if f.at < self.len() {
            f.at + 1
        } else {
            f.at
        };
        ParseError {
            expected: f.expected,
            start: self.byte_offset(f.at),
            end: self.byte_offset(next),
        }
    }
}

/// Reads a whole text as a document.
///
/// The lines come back in the order of the text. A text that is no document
/// gives one error, for the first position at which no line could be read.
pub fn parse_document(input: &str) -> (r: Result<Vec<Line>, Vec<ParseError>>)
    ensures
        r matches Ok(lines) ==> document(input@) == Ok::<Seq<LineView>, FailurePoint>(
            document_view(lines@),
        ),
        r matches Err(errors) ==> document(input@) is Err && errors@.len() == 1 && reports(
            errors@[0],
            input@,
            document(input@)->Err_0,
        ),
{
    let src = Source::new(input);
    let n = src.len();
    let mut lines: Vec<Line> = Vec::new();
    let mut at: usize = 0;
    assert(document_view(lines@) =~= Seq::<LineView>::empty());
    while at < n
        invariant
            at <= n,
            n == src@.len(),
            src@ == input@,
            lines_from(src@, at as int, document_view(lines@)) == document(src@),
        decreases n - at,
    {
        match parse_line(&src, at) {
            Ok((line, end)) => {
                let ghost done = document_view(lines@);
                let ghost added = line@;
                lines.push(line);
                assert(document_view(lines@) =~= done.push(added));
                at = src.space_end(end);
            },
            Err(f) => {
                let mut errors: Vec<ParseError> = Vec::new();
                errors.push(src.error(f));
                return Err(errors);
            },
        }
    }
    Ok(lines)
}

} // verus!
