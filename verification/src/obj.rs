//! The statements of a Wavefront OBJ text.
//!
//! A text is taken line by line. A line is cut into fields at blanks. A line
//! whose first field is `v` states a vertex by three or more coordinates; a
//! line whose first field is `f` states a triangle by the numbers of three
//! vertices stated before it, counted from 1. Lines that start otherwise
//! state nothing that is read here. Coordinates are left as they are
//! written: a vertex statement gives the places of its coordinate fields,
//! and reading them as numbers is the caller's part.

use vstd::prelude::*;

verus! {

/// `c` separates fields: it is one of the code points that Unicode calls
/// white space.
pub open spec fn is_blank(c: char) -> bool {
    let code = c as u32;
    ||| 0x09 <= code <= 0x0D
    ||| code == 0x20
    ||| code == 0x85
    ||| code == 0xA0
    ||| code == 0x1680
    ||| 0x2000 <= code <= 0x200A
    ||| code == 0x2028
    ||| code == 0x2029
    ||| code == 0x202F
    ||| code == 0x205F
    ||| code == 0x3000
}

/// Tells whether `c` separates fields.
pub fn blank(c: char) -> (b: bool)
    ensures
        b == is_blank(c),
{
    let code = c as u32;
    (0x09 <= code && code <= 0x0D) || code == 0x20 || code == 0x85 || code == 0xA0 || code
        == 0x1680 || (0x2000 <= code && code <= 0x200A) || code == 0x2028 || code == 0x2029
        || code == 0x202F || code == 0x205F || code == 0x3000
}

/// The place of a field in its line: the characters from `start` up to, not
/// including, `end`.
#[derive(Clone, Copy, PartialEq, Eq, Debug)]
pub struct Field {
    pub start: usize,
    pub end: usize,
}

/// The place of a field, in contracts.
pub struct Span {
    pub start: int,
    pub end: int,
}

impl View for Field {
    type V = Span;

    open spec fn view(&self) -> Span {
        Span { start: self.start as int, end: self.end as int }
    }
}

impl Span {
    /// The characters of the field.
    pub open spec fn of(self, line: Seq<char>) -> Seq<char> {
        line.subrange(self.start, self.end)
    }
}

/// Where the run of characters that are no blanks ends which starts at
/// `from`.
pub open spec fn run_end(line: Seq<char>, from: int) -> int
    decreases line.len() - from,
{
    if from < 0 || from >= line.len() || is_blank(line[from]) {
        from
    } else {
        run_end(line, from + 1)
    }
}

/// A field starts at `at`: the character there is no blank, and it is the
/// first of the line or follows a blank.
pub open spec fn starts_field(line: Seq<char>, at: int) -> bool {
    0 <= at < line.len() && !is_blank(line[at]) && (at == 0 || is_blank(line[at - 1]))
}

/// The fields that start at `from` or after it, from left to right: each
/// runs from where it starts to the next blank or the end of the line.
pub open spec fn fields_from(line: Seq<char>, from: int) -> Seq<Span>
    decreases line.len() - from,
{
    if from < 0 || from >= line.len() {
        Seq::empty()
    } else if starts_field(line, from) {
        seq![Span { start: from, end: run_end(line, from) }] + fields_from(line, from + 1)
    } else {
        fields_from(line, from + 1)
    }
}

/// The fields of a line.
pub open spec fn fields_of(line: Seq<char>) -> Seq<Span> {
    fields_from(line, 0)
}

/// A run that starts inside the line at a character that is no blank ends
/// after it, where the line ends or a blank follows, and holds no blank.
pub proof fn lemma_run_end(line: Seq<char>, from: int)
    requires
        0 <= from < line.len(),
        !is_blank(line[from]),
    ensures
        from < run_end(line, from) <= line.len(),
        run_end(line, from) == line.len() || is_blank(line[run_end(line, from)]),
        forall|i: int| from <= i < run_end(line, from) ==> !is_blank(line[i]),
    decreases line.len() - from,
{
    assert(run_end(line, from) == run_end(line, from + 1));
    if from + 1 < line.len() && !is_blank(line[from + 1]) {
        lemma_run_end(line, from + 1);
    } else {
        assert(run_end(line, from + 1) == from + 1);
    }
}

/// No field starts inside a run.
proof fn lemma_no_field_inside_run(line: Seq<char>, from: int, end: int)
    requires
        0 < from <= end <= line.len(),
        forall|i: int| from - 1 <= i < end ==> !is_blank(line[i]),
    ensures
        fields_from(line, from) == fields_from(line, end),
    decreases end - from,
{
    if from < end {
        assert(!starts_field(line, from));
        lemma_no_field_inside_run(line, from + 1, end);
    }
}

/// Cuts a line into its fields.
pub fn split_fields(line: &Vec<char>) -> (fields: Vec<Field>)
    ensures
        fields@.map_values(|f: Field| f@) == fields_of(line@),
{
    let mut fields: Vec<Field> = Vec::new();
    let mut at: usize = 0;
    while at < line.len()
        invariant
            at <= line@.len(),
            at == 0 || at == line@.len() || is_blank(line@[at - 1]) || is_blank(line@[at as int]),
            fields_of(line@) == fields@.map_values(|f: Field| f@) + fields_from(line@, at as int),
        decreases line@.len() - at,
    {
        if blank(line[at]) {
            assert(!starts_field(line@, at as int));
            at = at + 1;
        } else {
            let start = at;
            let mut end = at + 1;
            while end < line.len() && !blank(line[end])
                invariant
                    start < end <= line@.len(),
                    forall|i: int| start <= i < end ==> !is_blank(line@[i]),
                decreases line@.len() - end,
            {
                end = end + 1;
            }
            proof {
                let span = Span { start: start as int, end: end as int };
                lemma_run_end(line@, start as int);
                assert(run_end(line@, start as int) == end) by {
                    if run_end(line@, start as int) < end {
                        assert(is_blank(line@[run_end(line@, start as int)]));
                    }
                }
                assert(starts_field(line@, start as int));
                lemma_no_field_inside_run(line@, start + 1, end as int);
                assert(fields_from(line@, start as int) == seq![span] + fields_from(
                    line@,
                    end as int,
                ));
                let grown = fields@.push(Field { start, end }).map_values(|f: Field| f@);
                assert(grown =~= fields@.map_values(|f: Field| f@) + seq![span]);
                assert(grown + fields_from(line@, end as int) =~= fields@.map_values(
                    |f: Field| f@,
                ) + (seq![span] + fields_from(line@, end as int)));
            }
            fields.push(Field { start, end });
            at = end;
        }
    }
    proof {
        assert(fields_from(line@, at as int) =~= Seq::<Span>::empty());
        assert(fields@.map_values(|f: Field| f@) + Seq::<Span>::empty() =~= fields@.map_values(
            |f: Field| f@,
        ));
    }
    fields
}

/// `c` is one of the ten decimal digits.
pub open spec fn is_digit(c: char) -> bool {
    0x30 <= c as u32 <= 0x39
}

/// The value of a decimal digit.
pub open spec fn digit_value(c: char) -> nat {
    (c as u32 - 0x30) as nat
}

/// Every character is a decimal digit.
pub open spec fn all_digits(text: Seq<char>) -> bool {
    forall|i: int| 0 <= i < text.len() ==> is_digit(#[trigger] text[i])
}

/// The number that a row of decimal digits states.
pub open spec fn decimal(digits: Seq<char>) -> nat
    decreases digits.len(),
{
    if digits.len() == 0 {
        0
    } else {
        decimal(digits.drop_last()) * 10 + digit_value(digits.last())
    }
}

/// The number that a field states: one or more decimal digits, with or
/// without a plus sign before them.
pub open spec fn number_of(text: Seq<char>) -> Option<nat> {
    let digits = if text.len() > 0 && text[0] == '+' {
        text.subrange(1, text.len() as int)
    } else {
        text
    };
    if digits.len() > 0 && all_digits(digits) {
        Some(decimal(digits))
    } else {
        None
    }
}

/// The number that the field at `span` of `line` states, if the field lies
/// in the line, states a number, and an index can hold that number.
pub open spec fn index_of(line: Seq<char>, span: Span) -> Option<usize> {
    if 0 <= span.start <= span.end <= line.len() {
        match number_of(span.of(line)) {
            Some(n) => if n <= usize::MAX {
                Some(n as usize)
            } else {
                None
            },
            None => None,
        }
    } else {
        None
    }
}

/// A row of digits states at least what any of its beginnings states.
proof fn lemma_decimal_grows(digits: Seq<char>, upto: int)
    requires
        0 <= upto <= digits.len(),
    ensures
        decimal(digits.take(upto)) <= decimal(digits),
    decreases digits.len() - upto,
{
    if upto < digits.len() {
        let longer = digits.take(upto + 1);
        assert(longer.drop_last() =~= digits.take(upto));
        lemma_decimal_grows(digits, upto + 1);
    } else {
        assert(digits.take(upto) =~= digits);
    }
}

/// Reads the number that a field states.
pub fn parse_index(line: &Vec<char>, field: Field) -> (number: Option<usize>)
    ensures
        number == index_of(line@, field@),
{
    if field.start > field.end || field.end > line.len() {
        return None;
    }
    let ghost text = field@.of(line@);
    let mut at = field.start;
    if at < field.end && line[at] == '+' {
        at = at + 1;
    }
    let first = at;
    let ghost digits = line@.subrange(first as int, field.end as int);
    proof {
        assert(text.len() > 0 ==> text[0] == line@[field.start as int]);
        if text.len() > 0 && text[0] == '+' {
            assert(digits =~= text.subrange(1, text.len() as int));
        } else {
            assert(digits =~= text);
        }
    }
    let ghost wanted = index_of(line@, field@);
    proof {
        assert(wanted == if digits.len() > 0 && all_digits(digits) && decimal(digits)
            <= usize::MAX {
            Some(decimal(digits) as usize)
        } else {
            None
        });
    }
    if first == field.end {
        return None;
    }
    let mut value: usize = 0;
    while at < field.end
        invariant
            first <= at <= field.end <= line@.len(),
            digits == line@.subrange(first as int, field.end as int),
            wanted == index_of(line@, field@),
            wanted == if digits.len() > 0 && all_digits(digits) && decimal(digits) <= usize::MAX {
                Some(decimal(digits) as usize)
            } else {
                None
            },
            all_digits(digits.take(at - first)),
            value == decimal(digits.take(at - first)),
        decreases field.end - at,
    {
        let c = line[at];
        let code = c as u32;
        let ghost seen = digits.take(at - first);
        let ghost next = digits.take(at - first + 1);
        proof {
            assert(digits[at - first] == c);
            assert(next.drop_last() =~= seen);
            assert(next.last() == c);
        }
        if code < 0x30 || code > 0x39 {
            return None;
        }
        let digit = (code - 0x30) as usize;
        proof {
            assert forall|i: int| 0 <= i < next.len() implies is_digit(#[trigger] next[i]) by {
                if i < seen.len() {
                    assert(next[i] == seen[i]);
                }
            }
            lemma_decimal_grows(digits, at - first + 1);
        }
        value = match value.checked_mul(10) {
            Some(tens) => match tens.checked_add(digit) {
                Some(sum) => sum,
                None => {
                    proof {
                        lemma_all_digits_of_whole(digits, at - first + 1);
                    }
                    return None;
                },
            },
            None => {
                proof {
                    lemma_all_digits_of_whole(digits, at - first + 1);
                }
                return None;
            },
        };
        at = at + 1;
    }
    proof {
        assert(digits.take(at - first) =~= digits);
    }
    Some(value)
}

/// A beginning of a row of digits that states more than an index can hold
/// leaves the whole row without an index, whatever follows.
proof fn lemma_all_digits_of_whole(digits: Seq<char>, upto: int)
    requires
        0 <= upto <= digits.len(),
        decimal(digits.take(upto)) > usize::MAX,
    ensures
        !all_digits(digits) || decimal(digits) > usize::MAX,
{
    lemma_decimal_grows(digits, upto);
}

/// What a line states.
#[derive(PartialEq, Eq, Debug)]
pub enum Statement {
    /// Nothing: the line has no character.
    Empty,
    /// A vertex, by the places of its coordinates: all the fields after the
    /// first, three or more.
    Vertex(Vec<Field>),
    /// A triangle, by the numbers of its three vertices, counted from 0.
    Face(usize, usize, usize),
    /// Something that is not read here.
    Other,
}

/// What a line states, in contracts.
pub enum Stated {
    Empty,
    Vertex(Seq<Span>),
    Face(int, int, int),
    Other,
}

impl View for Statement {
    type V = Stated;

    open spec fn view(&self) -> Stated {
        match *self {
            Statement::Empty => Stated::Empty,
            Statement::Vertex(coordinates) => Stated::Vertex(
                coordinates@.map_values(|f: Field| f@),
            ),
            Statement::Face(a, b, c) => Stated::Face(a as int, b as int, c as int),
            Statement::Other => Stated::Other,
        }
    }
}

/// Why a line states nothing.
#[derive(Clone, Copy, PartialEq, Eq, Debug)]
pub enum Fault {
    /// The line holds blanks and nothing else.
    Blank,
    /// A vertex has fewer than three coordinates.
    ShortVertex,
    /// A field of a triangle states no number that an index can hold.
    BadNumber,
    /// A triangle has fewer than three vertices.
    ShortFace,
    /// One of the first three vertices of a triangle is numbered 0 or beyond
    /// the number of vertices stated so far.
    NoSuchVertex,
}

/// The field is the single character `c`.
pub open spec fn is_word(line: Seq<char>, span: Span, c: char) -> bool {
    span.of(line) == seq![c]
}

/// Every field states a number.
pub open spec fn all_numbers(line: Seq<char>, fields: Seq<Span>) -> bool {
    forall|i: int| 0 <= i < fields.len() ==> index_of(line, #[trigger] fields[i]) is Some
}

/// `number` names one of `vertices` vertices, counted from 1.
pub open spec fn names_vertex(number: usize, vertices: nat) -> bool {
    1 <= number <= vertices
}

/// The triangle that the fields after the `f` state, where `vertices`
/// vertices have been stated so far.
pub open spec fn face_of(line: Seq<char>, fields: Seq<Span>, vertices: nat) -> Result<
    Stated,
    Fault,
> {
    if !all_numbers(line, fields) {
        Err(Fault::BadNumber)
    } else if fields.len() < 3 {
        Err(Fault::ShortFace)
    } else {
        let a = index_of(line, fields[0])->0;
        let b = index_of(line, fields[1])->0;
        let c = index_of(line, fields[2])->0;
        if names_vertex(a, vertices) && names_vertex(b, vertices) && names_vertex(c, vertices) {
            Ok(Stated::Face(a - 1, b - 1, c - 1))
        } else {
            Err(Fault::NoSuchVertex)
        }
    }
}

/// What a line states, where `vertices` vertices have been stated so far.
pub open spec fn statement_of(line: Seq<char>, vertices: nat) -> Result<Stated, Fault> {
    let fields = fields_of(line);
    if line.len() == 0 {
        Ok(Stated::Empty)
    } else if fields.len() == 0 {
        Err(Fault::Blank)
    } else if is_word(line, fields[0], 'v') {
        if fields.len() < 4 {
            Err(Fault::ShortVertex)
        } else {
            Ok(Stated::Vertex(fields.skip(1)))
        }
    } else if is_word(line, fields[0], 'f') {
        face_of(line, fields.skip(1), vertices)
    } else {
        Ok(Stated::Other)
    }
}

/// Tells whether a field is the single character `c`.
fn word_is(line: &Vec<char>, field: Field, c: char) -> (same: bool)
    requires
        field.start < field.end <= line@.len(),
    ensures
        same == is_word(line@, field@, c),
{
    let ghost text = field@.of(line@);
    proof {
        assert(text[0] == line@[field.start as int]);
    }
    if field.end - field.start == 1 && line[field.start] == c {
        proof {
            assert(text =~= seq![c]);
        }
        true
    } else {
        proof {
            if text == seq![c] {
                assert(seq![c].len() == 1);
                assert(seq![c][0] == c);
            }
        }
        false
    }
}

/// The fields after the first.
fn after_first(fields: &Vec<Field>) -> (rest: Vec<Field>)
    requires
        fields@.len() > 0,
    ensures
        rest@ == fields@.skip(1),
{
    let mut rest: Vec<Field> = Vec::new();
    let mut at: usize = 1;
    while at < fields.len()
        invariant
            1 <= at <= fields@.len(),
            rest@ == fields@.subrange(1, at as int),
        decreases fields@.len() - at,
    {
        rest.push(fields[at]);
        proof {
            assert(rest@ =~= fields@.subrange(1, at + 1));
        }
        at = at + 1;
    }
    proof {
        assert(rest@ =~= fields@.skip(1));
    }
    rest
}

/// Reads the triangle that the fields after the `f` state.
fn read_face(line: &Vec<char>, fields: &Vec<Field>, vertices: usize) -> (face: Result<
    Statement,
    Fault,
>)
    ensures
        match face {
            Ok(statement) => Ok::<Stated, Fault>(statement@),
            Err(fault) => Err::<Stated, Fault>(fault),
        } == face_of(line@, fields@.map_values(|f: Field| f@), vertices as nat),
{
    let ghost spans = fields@.map_values(|f: Field| f@);
    let mut numbers: Vec<usize> = Vec::new();
    let mut at: usize = 0;
    while at < fields.len()
        invariant
            at <= fields@.len(),
            spans == fields@.map_values(|f: Field| f@),
            numbers@.len() == at,
            forall|i: int|
                0 <= i < at ==> index_of(line@, #[trigger] spans[i]) == Some(numbers@[i]),
        decreases fields@.len() - at,
    {
        match parse_index(line, fields[at]) {
            Some(number) => {
                numbers.push(number);
            },
            None => {
                proof {
                    assert(index_of(line@, spans[at as int]) is None);
                }
                return Err(Fault::BadNumber);
            },
        }
        at = at + 1;
    }
    if numbers.len() < 3 {
        return Err(Fault::ShortFace);
    }
    let a = numbers[0];
    let b = numbers[1];
    let c = numbers[2];
    proof {
        assert(index_of(line@, spans[0]) == Some(a));
        assert(index_of(line@, spans[1]) == Some(b));
        assert(index_of(line@, spans[2]) == Some(c));
    }
    if 1 <= a && a <= vertices && 1 <= b && b <= vertices && 1 <= c && c <= vertices {
        Ok(Statement::Face(a - 1, b - 1, c - 1))
    } else {
        Err(Fault::NoSuchVertex)
    }
}

/// Reads what a line states, where `vertices` vertices have been stated so
/// far.
pub fn read_statement(line: &Vec<char>, vertices: usize) -> (read: Result<Statement, Fault>)
    ensures
        match read {
            Ok(statement) => Ok::<Stated, Fault>(statement@),
            Err(fault) => Err::<Stated, Fault>(fault),
        } == statement_of(line@, vertices as nat),
{
    if line.len() == 0 {
        return Ok(Statement::Empty);
    }
    let fields = split_fields(line);
    let ghost spans = fields_of(line@);
    if fields.len() == 0 {
        return Err(Fault::Blank);
    }
    proof {
        lemma_fields_lie_in_line(line@, 0);
        assert(spans[0] == fields@[0]@);
    }
    let rest = after_first(&fields);
    proof {
        assert(rest@.map_values(|f: Field| f@) =~= spans.skip(1));
    }
    if word_is(line, fields[0], 'v') {
        if fields.len() < 4 {
            Err(Fault::ShortVertex)
        } else {
            Ok(Statement::Vertex(rest))
        }
    } else if word_is(line, fields[0], 'f') {
        read_face(line, &rest, vertices)
    } else {
        Ok(Statement::Other)
    }
}

/// Every field lies in its line and holds at least one character; it
/// starts where a run of characters that are no blanks starts and ends
/// where that run ends; and the fields come from left to right, each after
/// the end of the one before.
pub proof fn lemma_fields_lie_in_line(line: Seq<char>, from: int)
    requires
        0 <= from,
    ensures
        forall|i: int|
            0 <= i < fields_from(line, from).len() ==> {
                let span = #[trigger] fields_from(line, from)[i];
                &&& from <= span.start < span.end <= line.len()
                &&& starts_field(line, span.start)
                &&& span.end == run_end(line, span.start)
            },
        forall|i: int, j: int|
            0 <= i < j < fields_from(line, from).len() ==> (#[trigger] fields_from(
                line,
                from,
            )[i]).end < (#[trigger] fields_from(line, from)[j]).start,
    decreases line.len() - from,
{
    if from < line.len() {
        lemma_fields_lie_in_line(line, from + 1);
        let rest = fields_from(line, from + 1);
        if starts_field(line, from) {
            lemma_run_end(line, from);
            let first = Span { start: from, end: run_end(line, from) };
            let all = fields_from(line, from);
            assert(all == seq![first] + rest);
            assert forall|i: int| 0 <= i < all.len() implies {
                let span = #[trigger] all[i];
                &&& from <= span.start < span.end <= line.len()
                &&& starts_field(line, span.start)
                &&& span.end == run_end(line, span.start)
            } by {
                if i > 0 {
                    assert(all[i] == rest[i - 1]);
                }
            }
            assert forall|i: int, j: int| 0 <= i < j < all.len() implies (#[trigger] all[i]).end
                < (#[trigger] all[j]).start by {
                assert(all[j] == rest[j - 1]);
                if i > 0 {
                    assert(all[i] == rest[i - 1]);
                } else {
                    let next = rest[j - 1];
                    assert(starts_field(line, next.start));
                    if next.start <= first.end {
                        if next.start < first.end {
                            assert(!is_blank(line[next.start - 1]));
                        } else {
                            assert(!is_blank(line[next.start]));
                        }
                    }
                }
            }
        }
    }
}

/// Where the line ends that holds the character at `from`: at the next
/// line feed, or at the end of the text.
pub open spec fn line_end(text: Seq<char>, from: int) -> int
    decreases text.len() - from,
{
    if from < 0 || from >= text.len() || text[from] == '\n' {
        from
    } else {
        line_end(text, from + 1)
    }
}

/// A line starts at `at`: with the text, or after a line feed.
pub open spec fn starts_line(text: Seq<char>, at: int) -> bool {
    0 <= at < text.len() && (at == 0 || text[at - 1] == '\n')
}

/// The line that starts at `from`, without the line feed that ends it and
/// without a carriage return just before that line feed.
pub open spec fn line_at(text: Seq<char>, from: int) -> Seq<char> {
    let end = line_end(text, from);
    if from < end < text.len() && text[end - 1] == '\r' {
        text.subrange(from, end - 1)
    } else {
        text.subrange(from, end)
    }
}

/// The lines that start at `from` or after it.
pub open spec fn lines_from(text: Seq<char>, from: int) -> Seq<Seq<char>>
    decreases text.len() - from,
{
    if from < 0 || from >= text.len() {
        Seq::empty()
    } else if starts_line(text, from) {
        seq![line_at(text, from)] + lines_from(text, from + 1)
    } else {
        lines_from(text, from + 1)
    }
}

/// The lines of a text. A text that ends in a line feed has no line after
/// it.
pub open spec fn lines_of(text: Seq<char>) -> Seq<Seq<char>> {
    lines_from(text, 0)
}

/// A line ends at or after its start, inside the text at a line feed or at
/// the end of the text, and holds no line feed.
pub proof fn lemma_line_end(text: Seq<char>, from: int)
    requires
        0 <= from <= text.len(),
    ensures
        from <= line_end(text, from) <= text.len(),
        line_end(text, from) == text.len() || text[line_end(text, from)] == '\n',
        forall|i: int| from <= i < line_end(text, from) ==> text[i] != '\n',
    decreases text.len() - from,
{
    if from < text.len() && text[from] != '\n' {
        lemma_line_end(text, from + 1);
    }
}

/// No line starts inside a line.
proof fn lemma_no_line_inside_line(text: Seq<char>, from: int, end: int)
    requires
        0 < from <= end <= text.len(),
        forall|i: int| from - 1 <= i < end - 1 ==> text[i] != '\n',
    ensures
        lines_from(text, from) == lines_from(text, end),
    decreases end - from,
{
    if from < end {
        assert(!starts_line(text, from));
        lemma_no_line_inside_line(text, from + 1, end);
    }
}

/// Cuts a text into its lines.
pub fn split_lines(text: &Vec<char>) -> (lines: Vec<Vec<char>>)
    ensures
        texts(lines@) == lines_of(text@),
{
    let mut lines: Vec<Vec<char>> = Vec::new();
    let mut at: usize = 0;
    proof {
        assert(texts(lines@) =~= Seq::<Seq<char>>::empty());
        assert(Seq::<Seq<char>>::empty() + lines_from(text@, 0) =~= lines_from(text@, 0));
    }
    while at < text.len()
        invariant
            at <= text@.len(),
            at == 0 || at == text@.len() || text@[at - 1] == '\n',
            lines_of(text@) == texts(lines@) + lines_from(text@, at as int),
        decreases text@.len() - at,
    {
        let start = at;
        let mut end = at;
        while end < text.len() && text[end] != '\n'
            invariant
                start <= end <= text@.len(),
                forall|i: int| start <= i < end ==> text@[i] != '\n',
            decreases text@.len() - end,
        {
            end = end + 1;
        }
        let stop = if start < end && end < text.len() && text[end - 1] == '\r' {
            end - 1
        } else {
            end
        };
        let mut line: Vec<char> = Vec::new();
        let mut copied = start;
        while copied < stop
            invariant
                start <= copied <= stop <= text@.len(),
                line@ == text@.subrange(start as int, copied as int),
            decreases stop - copied,
        {
            line.push(text[copied]);
            proof {
                assert(line@ =~= text@.subrange(start as int, copied + 1));
            }
            copied = copied + 1;
        }
        proof {
            lemma_line_end(text@, start as int);
            assert(line_end(text@, start as int) == end) by {
                if line_end(text@, start as int) < end {
                    assert(text@[line_end(text@, start as int)] == '\n');
                }
            }
            assert(line@ == line_at(text@, start as int));
            assert(starts_line(text@, start as int));
            if end < text@.len() {
                lemma_no_line_inside_line(text@, start + 1, end + 1);
            } else {
                lemma_no_line_inside_line(text@, start + 1, end as int);
            }
            let next = if end < text@.len() {
                end + 1
            } else {
                end as int
            };
            assert(lines_from(text@, start as int) == seq![line@] + lines_from(text@, next));
            assert(texts(lines@.push(line)) =~= texts(lines@) + seq![line@]);
            assert(texts(lines@.push(line)) + lines_from(text@, next) =~= texts(lines@) + (seq![
                line@,
            ] + lines_from(text@, next)));
        }
        lines.push(line);
        at = if end < text.len() {
            end + 1
        } else {
            end
        };
    }
    proof {
        assert(lines_from(text@, at as int) =~= Seq::<Seq<char>>::empty());
        assert(texts(lines@) + Seq::<Seq<char>>::empty() =~= texts(lines@));
    }
    lines
}

/// A vertex statement: the number of its line, counted from 0, and the
/// places of its coordinates in that line.
#[derive(PartialEq, Eq, Debug)]
pub struct VertexLine {
    pub line: usize,
    pub coordinates: Vec<Field>,
}

/// What a text states: its vertices and its triangles, each in the order of
/// the text. A triangle names its three vertices by their places in the
/// list of vertices.
#[derive(PartialEq, Eq, Debug)]
pub struct Layout {
    pub vertices: Vec<VertexLine>,
    pub faces: Vec<(usize, usize, usize)>,
}

/// The first line of a text that states nothing, counted from 0, and why.
#[derive(Clone, Copy, PartialEq, Eq, Debug)]
pub struct Misread {
    pub line: usize,
    pub fault: Fault,
}

/// What a text states, in contracts.
pub struct Content {
    pub vertices: Seq<(int, Seq<Span>)>,
    pub faces: Seq<(int, int, int)>,
}

impl View for Layout {
    type V = Content;

    open spec fn view(&self) -> Content {
        Content {
            vertices: self.vertices@.map_values(
                |v: VertexLine| (v.line as int, v.coordinates@.map_values(|f: Field| f@)),
            ),
            faces: self.faces@.map_values(
                |f: (usize, usize, usize)| (f.0 as int, f.1 as int, f.2 as int),
            ),
        }
    }
}

/// What the first `count` lines state: the statements of the lines before
/// the last of them, and then what that last line states, given the
/// vertices stated before it. The first line that states nothing leaves the
/// whole text without content.
pub open spec fn content_of(lines: Seq<Seq<char>>, count: int) -> Result<Content, (int, Fault)>
    decreases count,
{
    if count <= 0 {
        Ok(Content { vertices: Seq::empty(), faces: Seq::empty() })
    } else {
        match content_of(lines, count - 1) {
            Err(misread) => Err(misread),
            Ok(before) => match statement_of(lines[count - 1], before.vertices.len()) {
                Err(fault) => Err((count - 1, fault)),
                Ok(Stated::Vertex(coordinates)) => Ok(
                    Content {
                        vertices: before.vertices.push((count - 1, coordinates)),
                        faces: before.faces,
                    },
                ),
                Ok(Stated::Face(a, b, c)) => Ok(
                    Content { vertices: before.vertices, faces: before.faces.push((a, b, c)) },
                ),
                Ok(_) => Ok(before),
            },
        }
    }
}

/// The lines as sequences of characters.
pub open spec fn texts(lines: Seq<Vec<char>>) -> Seq<Seq<char>> {
    lines.map_values(|line: Vec<char>| line@)
}

/// Every triangle of a text names vertices that the text states before it.
pub proof fn lemma_faces_name_vertices(lines: Seq<Seq<char>>, count: int)
    ensures
        content_of(lines, count) matches Ok(content) ==> forall|i: int|
            0 <= i < content.faces.len() ==> {
                let face = #[trigger] content.faces[i];
                &&& 0 <= face.0 < content.vertices.len()
                &&& 0 <= face.1 < content.vertices.len()
                &&& 0 <= face.2 < content.vertices.len()
            },
    decreases count,
{
    if count > 0 {
        lemma_faces_name_vertices(lines, count - 1);
    }
}

/// Every vertex of a text has three or more coordinates, each a field of
/// the line that states the vertex, and the vertices are listed in the
/// order of their lines.
pub proof fn lemma_vertices_have_coordinates(lines: Seq<Seq<char>>, count: int)
    requires
        count <= lines.len(),
    ensures
        content_of(lines, count) matches Ok(content) ==> forall|i: int|
            0 <= i < content.vertices.len() ==> {
                let vertex = #[trigger] content.vertices[i];
                &&& 0 <= vertex.0 < count
                &&& vertex.1.len() >= 3
                &&& vertex.1 == fields_of(lines[vertex.0]).skip(1)
                &&& (i > 0 ==> content.vertices[i - 1].0 < vertex.0)
            },
    decreases count,
{
    if count > 0 {
        lemma_vertices_have_coordinates(lines, count - 1);
    }
}

/// Reads what a text states, given its lines without their line ends.
pub fn read_lines(lines: &Vec<Vec<char>>) -> (read: Result<Layout, Misread>)
    ensures
        match read {
            Ok(layout) => Ok::<Content, (int, Fault)>(layout@),
            Err(misread) => Err::<Content, (int, Fault)>((misread.line as int, misread.fault)),
        } == content_of(texts(lines@), lines@.len() as int),
{
    let mut layout = Layout { vertices: Vec::new(), faces: Vec::new() };
    let mut at: usize = 0;
    proof {
        assert(layout@.vertices =~= Seq::empty());
        assert(layout@.faces =~= Seq::empty());
    }
    while at < lines.len()
        invariant
            at <= lines@.len(),
            content_of(texts(lines@), at as int) == Ok::<Content, (int, Fault)>(layout@),
        decreases lines@.len() - at,
    {
        let ghost before = layout@;
        proof {
            assert(texts(lines@)[at as int] == lines@[at as int]@);
            assert(before.vertices.len() == layout.vertices@.len());
        }
        match read_statement(&lines[at], layout.vertices.len()) {
            Err(fault) => {
                proof {
                    lemma_misread_stays(texts(lines@), at + 1, lines@.len() as int);
                }
                return Err(Misread { line: at, fault });
            },
            Ok(Statement::Vertex(coordinates)) => {
                let ghost spans = coordinates@.map_values(|f: Field| f@);
                layout.vertices.push(VertexLine { line: at, coordinates });
                proof {
                    assert(layout@.vertices =~= before.vertices.push((at as int, spans)));
                    assert(layout@.faces =~= before.faces);
                }
            },
            Ok(Statement::Face(a, b, c)) => {
                layout.faces.push((a, b, c));
                proof {
                    assert(layout@.faces =~= before.faces.push((a as int, b as int, c as int)));
                    assert(layout@.vertices =~= before.vertices);
                }
            },
            Ok(_) => {},
        }
        at = at + 1;
    }
    Ok(layout)
}

/// A line that states nothing is the verdict on every longer beginning of
/// the text.
proof fn lemma_misread_stays(lines: Seq<Seq<char>>, count: int, longer: int)
    requires
        count <= longer,
        content_of(lines, count) is Err,
    ensures
        content_of(lines, longer) == content_of(lines, count),
    decreases longer - count,
{
    if count < longer {
        lemma_misread_stays(lines, count, longer - 1);
    }
}

} // verus!
