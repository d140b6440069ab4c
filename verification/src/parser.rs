//! The syntax tree of patterns and expressions, and the parser that reads it
//! from text.

use vstd::prelude::*;
use crate::error::{Error, Failure};
use crate::value::{Expr, Value};

verus! {

/// The mathematical view of an [`AST`].
pub enum Syntax {
    Named(Seq<char>),
    Value(Expr),
    Braket(Box<Syntax>, Box<Syntax>),
    Add(Box<Syntax>, Box<Syntax>),
    Mul(Box<Syntax>, Box<Syntax>),
    Kind(Seq<char>, Seq<char>),
    Negative(Box<Syntax>),
    C(Box<Syntax>, Box<Syntax>),
}

impl Syntax {
    /// A bracket with its two sides exchanged; nothing for any other node.
    pub open spec fn flipped(self) -> Option<Syntax> {
        match self {
            Syntax::Braket(a, b) => Some(Syntax::Braket(b, a)),
            _ => None,
        }
    }

    /// The node under one sign.
    pub open spec fn negated(self) -> Syntax {
        Syntax::Negative(Box::new(self))
    }

    /// No value that the tree holds has a negative number or index.
    pub open spec fn unsigned(self) -> bool
        decreases self,
    {
        match self {
            Syntax::Named(_) => true,
            Syntax::Kind(_, _) => true,
            Syntax::Value(value) => value.unsigned(),
            Syntax::Negative(a) => a.unsigned(),
            Syntax::Braket(a, b) | Syntax::Add(a, b) | Syntax::Mul(a, b) | Syntax::C(a, b) => {
                a.unsigned() && b.unsigned()
            },
        }
    }
}

/// A pattern or an expression before evaluation.
#[derive(Debug)]
pub enum AST {
    /// A pattern variable, or a reference to a bound name.
    Named(String),
    /// A value that is already concrete.
    Value(Value),
    Braket(Box<AST>, Box<AST>),
    Add(Box<AST>, Box<AST>),
    Mul(Box<AST>, Box<AST>),
    /// A generator whose index is the name of a variable.
    Kind(String, String),
    Negative(Box<AST>),
    /// A lookup in the table of structure constants.
    C(Box<AST>, Box<AST>),
}

impl AST {
    /// The syntax this tree stands for.
    pub open spec fn syntax(self) -> Syntax
        decreases self,
    {
        match self {
            AST::Named(name) => Syntax::Named(name@),
            AST::Value(value) => Syntax::Value(value@),
            AST::Braket(a, b) => Syntax::Braket(Box::new(a.syntax()), Box::new(b.syntax())),
            AST::Add(a, b) => Syntax::Add(Box::new(a.syntax()), Box::new(b.syntax())),
            AST::Mul(a, b) => Syntax::Mul(Box::new(a.syntax()), Box::new(b.syntax())),
            AST::Kind(name, index) => Syntax::Kind(name@, index@),
            AST::Negative(a) => Syntax::Negative(Box::new(a.syntax())),
            AST::C(a, b) => Syntax::C(Box::new(a.syntax()), Box::new(b.syntax())),
        }
    }

    /// The bracket with its two sides exchanged, if this is a bracket.
    pub fn flip(&self) -> (res: Option<AST>)
        ensures
            match res {
                Some(flipped) => self@.flipped() == Some(flipped@),
                None => self@.flipped() is None,
            },
    {
        match self {
            AST::Braket(a, b) => Some(AST::Braket(Box::new((&**b).clone()), Box::new((&**a).clone()))),
            _ => None,
        }
    }

    /// This tree under one sign.
    pub fn negate(&self) -> (res: AST)
        ensures
            res@ == self@.negated(),
    {
        AST::Negative(Box::new(self.clone()))
    }
}

impl View for AST {
    type V = Syntax;

    open spec fn view(&self) -> Syntax {
        self.syntax()
    }
}

impl Clone for AST {
    fn clone(&self) -> (res: AST)
        ensures
            res@ == self@,
        decreases self,
    {
        match self {
            AST::Named(name) => AST::Named(name.clone()),
            AST::Value(value) => AST::Value(value.clone()),
            AST::Braket(a, b) => AST::Braket(Box::new((&**a).clone()), Box::new((&**b).clone())),
            AST::Add(a, b) => AST::Add(Box::new((&**a).clone()), Box::new((&**b).clone())),
            AST::Mul(a, b) => AST::Mul(Box::new((&**a).clone()), Box::new((&**b).clone())),
            AST::Kind(name, index) => AST::Kind(name.clone(), index.clone()),
            AST::Negative(a) => AST::Negative(Box::new((&**a).clone())),
            AST::C(a, b) => AST::C(Box::new((&**a).clone()), Box::new((&**b).clone())),
        }
    }
}

impl PartialEq for AST {
    fn eq(&self, other: &AST) -> (res: bool)
        decreases self,
    {
        match self {
            AST::Named(name) => match other {
                AST::Named(other_name) => *name == *other_name,
                _ => false,
            },
            AST::Value(value) => match other {
                AST::Value(other_value) => *value == *other_value,
                _ => false,
            },
            AST::Braket(a, b) => match other {
                AST::Braket(c, d) => (&**a).eq(&**c) && (&**b).eq(&**d),
                _ => false,
            },
            AST::Add(a, b) => match other {
                AST::Add(c, d) => (&**a).eq(&**c) && (&**b).eq(&**d),
                _ => false,
            },
            AST::Mul(a, b) => match other {
                AST::Mul(c, d) => (&**a).eq(&**c) && (&**b).eq(&**d),
                _ => false,
            },
            AST::Kind(name, index) => match other {
                AST::Kind(other_name, other_index) => *name == *other_name && *index
                    == *other_index,
                _ => false,
            },
            AST::Negative(a) => match other {
                AST::Negative(c) => (&**a).eq(&**c),
                _ => false,
            },
            AST::C(a, b) => match other {
                AST::C(c, d) => (&**a).eq(&**c) && (&**b).eq(&**d),
                _ => false,
            },
        }
    }
}

impl vstd::std_specs::cmp::PartialEqSpecImpl for AST {
    open spec fn obeys_eq_spec() -> bool {
        true
    }

    open spec fn eq_spec(&self, other: &AST) -> bool {
        self@ == other@
    }
}

/// A class of characters.
#[derive(Clone, Copy, Debug)]
pub enum Class {
    /// The letters `a` to `z` and `A` to `Z`.
    Alphabetic,
    /// The digits `0` to `9`.
    Numeric,
    /// White space.
    Whitespace,
    /// One character.
    Exactly(char),
}

/// Whether `c` is white space.
pub open spec fn is_space(c: char) -> bool {
    let code = c as u32;
    ||| 0x09 <= code <= 0x0d
    ||| code == 0x20
    ||| code == 0x85
    ||| code == 0xa0
    ||| code == 0x1680
    ||| 0x2000 <= code <= 0x200a
    ||| code == 0x2028
    ||| code == 0x2029
    ||| code == 0x202f
    ||| code == 0x205f
    ||| code == 0x3000
}

/// Whether `c` is a letter of the names.
pub open spec fn is_letter(c: char) -> bool {
    ('a' <= c && c <= 'z') || ('A' <= c && c <= 'Z')
}

/// Whether `c` is a decimal digit.
pub open spec fn is_digit(c: char) -> bool {
    '0' <= c && c <= '9'
}

impl Class {
    /// Whether `c` belongs to the class.
    pub open spec fn holds(self, c: char) -> bool {
        match self {
            Class::Alphabetic => is_letter(c),
            Class::Numeric => is_digit(c),
            Class::Whitespace => is_space(c),
            Class::Exactly(wanted) => c == wanted,
        }
    }

    /// Whether `c` belongs to the class.
    pub fn contains(&self, c: char) -> (res: bool)
        ensures
            res == self.holds(c),
    {
        match self {
            Class::Alphabetic => (c >= 'a' && c <= 'z') || (c >= 'A' && c <= 'Z'),
            Class::Numeric => c >= '0' && c <= '9',
            Class::Whitespace => {
                let code = c as u32;
                (0x09 <= code && code <= 0x0d) || code == 0x20 || code == 0x85 || code == 0xa0
                    || code == 0x1680 || (0x2000 <= code && code <= 0x200a) || code == 0x2028
                    || code == 0x2029 || code == 0x202f || code == 0x205f || code == 0x3000
            },
            Class::Exactly(wanted) => c == *wanted,
        }
    }
}

/// Whether the character `c` stands at `pos`.
pub open spec fn char_at(s: Seq<char>, pos: int, c: char) -> bool {
    0 <= pos < s.len() && s[pos] == c
}

/// The end of the longest run of characters of `class` that starts at `pos`.
pub open spec fn run_end(s: Seq<char>, pos: int, class: Class) -> int
    decreases s.len() - pos,
{
    if 0 <= pos < s.len() && class.holds(s[pos]) {
        run_end(s, pos + 1, class)
    } else {
        pos
    }
}

/// A run ends at or after its start, and inside the text where it starts there.
pub proof fn lemma_run_end_bounds(s: Seq<char>, pos: int, class: Class)
    ensures
        pos <= run_end(s, pos, class),
        pos <= s.len() ==> run_end(s, pos, class) <= s.len(),
    decreases s.len() - pos,
{
    if 0 <= pos < s.len() && class.holds(s[pos]) {
        lemma_run_end_bounds(s, pos + 1, class);
    }
}

/// The number that a sequence of digits writes, in base ten.
pub open spec fn decimal(digits: Seq<char>) -> int
    decreases digits.len(),
{
    if digits.len() == 0 {
        0
    } else {
        decimal(digits.drop_last()) * 10 + (digits.last() as int - '0' as int)
    }
}

/// A name: one letter or more, as many as there are.
pub open spec fn parsed_word(s: Seq<char>, pos: int) -> Option<(int, Seq<char>)> {
    if 0 <= pos < s.len() && is_letter(s[pos]) {
        let end = run_end(s, pos + 1, Class::Alphabetic);
        Some((end, s.subrange(pos, end)))
    } else {
        None
    }
}

/// A number: one digit or more, as many as there are, whose value is at most
/// `i32::MAX`.
pub open spec fn parsed_number(s: Seq<char>, pos: int) -> Option<(int, int)> {
    let end = run_end(s, pos, Class::Numeric);
    if 0 <= pos < end && decimal(s.subrange(pos, end)) <= i32::MAX {
        Some((end, decimal(s.subrange(pos, end))))
    } else {
        None
    }
}

/// A place in a source text.
#[derive(Clone, Copy, Debug)]
pub struct Parser<'a> {
    pub src: &'a str,
    /// The number of characters before the place.
    pub index: usize,
}

impl<'a> Parser<'a> {
    /// The place lies inside the text, or at its end.
    pub open spec fn wf(self) -> bool {
        self.index <= self.src@.len()
    }

    /// Whether `next` is a place in the same text, at or after this one.
    pub open spec fn reaches(self, next: Parser<'a>) -> bool {
        next.src@ == self.src@ && next.wf() && self.index <= next.index
    }

    /// The start of `src`.
    pub fn new(src: &'a str) -> (res: Parser<'a>)
        ensures
            res.src@ == src@,
            res.index == 0,
            res.wf(),
    {
        Parser { src, index: 0 }
    }

    /// The place `index` characters further on, or the end of the text where
    /// that lies beyond it.
    pub fn set_index(&self, index: usize) -> (res: Parser<'a>)
        requires
            self.wf(),
        ensures
            self.reaches(res),
            res.index == if self.index + index <= self.src@.len() {
                self.index + index
            } else {
                self.src@.len() as int
            },
    {
        let len = self.src.unicode_len();
        if index <= len - self.index {
            Parser { src: self.src, index: self.index + index }
        } else {
            Parser { src: self.src, index: len }
        }
    }

    /// The place after the next character, where that character is of `class`.
    pub fn starts_with(&self, class: Class) -> (res: Option<Parser<'a>>)
        requires
            self.wf(),
        ensures
            match res {
                Some(next) => self.reaches(next) && next.index == self.index + 1
                    && class.holds(self.src@[self.index as int]),
                None => !(self.index < self.src@.len() && class.holds(
                    self.src@[self.index as int],
                )),
            },
    {
        if self.index < self.src.unicode_len() && class.contains(self.src.get_char(self.index)) {
            Some(self.set_index(1))
        } else {
            None
        }
    }

    /// The place after the next character, where that character is `chr`.
    pub fn starts_with_char(&self, chr: char) -> (res: Option<Parser<'a>>)
        requires
            self.wf(),
        ensures
            match res {
                Some(next) => self.reaches(next) && next.index == self.index + 1 && char_at(
                    self.src@,
                    self.index as int,
                    chr,
                ),
                None => !char_at(self.src@, self.index as int, chr),
            },
    {
        self.starts_with(Class::Exactly(chr))
    }

    /// The place after the longest run of characters of `class`.
    pub fn next_while(&self, class: Class) -> (res: Parser<'a>)
        requires
            self.wf(),
        ensures
            self.reaches(res),
            res.index == run_end(self.src@, self.index as int, class),
    {
        let len = self.src.unicode_len();
        let mut index = self.index;
        while index < len && class.contains(self.src.get_char(index))
            invariant
                self.index <= index <= len,
                len == self.src@.len(),
                run_end(self.src@, index as int, class) == run_end(
                    self.src@,
                    self.index as int,
                    class,
                ),
            decreases len - index,
        {
            index += 1;
        }
        Parser { src: self.src, index }
    }

    /// The place after the white space that stands here.
    pub fn skip_whitespace(&self) -> (res: Parser<'a>)
        requires
            self.wf(),
        ensures
            self.reaches(res),
            res.index == run_end(self.src@, self.index as int, Class::Whitespace),
    {
        self.next_while(Class::Whitespace)
    }
}

/// Reads a name.
pub fn parse_word<'a>(src: Parser<'a>) -> (res: Option<(Parser<'a>, String)>)
    requires
        src.wf(),
    ensures
        match res {
            Some((next, word)) => src.reaches(next) && next.index > src.index && parsed_word(
                src.src@,
                src.index as int,
            ) == Some((next.index as int, word@)),
            None => parsed_word(src.src@, src.index as int) is None,
        },
{
    let start = src.index;
    match src.starts_with(Class::Alphabetic) {
        Some(first) => {
            let next = first.next_while(Class::Alphabetic);
            let end = next.index;
            let word = src.src.substring_char(start, end).to_owned();
            Some((next, word))
        },
        None => None,
    }
}

/// The value of the digits read so far stays the value of a prefix.
proof fn lemma_decimal_step(s: Seq<char>, start: int, i: int)
    requires
        0 <= start <= i < s.len(),
    ensures
        decimal(s.subrange(start, i + 1)) == decimal(s.subrange(start, i)) * 10 + (s[i] as int
            - '0' as int),
{
    assert(s.subrange(start, i + 1).drop_last() =~= s.subrange(start, i));
}

/// Every character of a run is of the class of the run.
proof fn lemma_run_holds(s: Seq<char>, pos: int, class: Class, i: int)
    requires
        0 <= pos <= i < run_end(s, pos, class),
    ensures
        i < s.len(),
        class.holds(s[i]),
    decreases i - pos,
{
    if 0 <= pos < s.len() && class.holds(s[pos]) {
        if i > pos {
            lemma_run_holds(s, pos + 1, class, i);
        }
    }
}

/// Reads a number.
pub fn parse_number<'a>(src: Parser<'a>) -> (res: Option<(Parser<'a>, i32)>)
    requires
        src.wf(),
    ensures
        match res {
            Some((next, n)) => src.reaches(next) && next.index > src.index && parsed_number(
                src.src@,
                src.index as int,
            ) == Some((next.index as int, n as int)),
            None => parsed_number(src.src@, src.index as int) is None,
        },
{
    let start = src.index;
    let next = src.next_while(Class::Numeric);
    let end = next.index;
    if start == end {
        return None;
    }
    let mut value: i64 = 0;
    let mut fits = true;
    let mut i = start;
    proof {
        assert(src.src@.subrange(start as int, start as int) =~= Seq::<char>::empty());
    }
    while i < end
        invariant
            start <= i <= end <= src.src@.len(),
            end == run_end(src.src@, start as int, Class::Numeric),
            0 <= value <= i32::MAX,
            fits ==> value == decimal(src.src@.subrange(start as int, i as int)),
            !fits ==> decimal(src.src@.subrange(start as int, i as int)) > i32::MAX,
        decreases end - i,
    {
        proof {
            lemma_run_holds(src.src@, start as int, Class::Numeric, i as int);
            lemma_decimal_step(src.src@, start as int, i as int);
        }
        let digit = src.src.get_char(i) as u32 - '0' as u32;
        if fits {
            value = value * 10 + digit as i64;
            if value > 0x7fff_ffff {
                fits = false;
                value = 0;
            }
        }
        i += 1;
    }
    if fits {
        Some((next, value as i32))
    } else {
        None
    }
}

/// The place after the white space that starts at `pos`.
pub open spec fn after_space(s: Seq<char>, pos: int) -> int {
    run_end(s, pos, Class::Whitespace)
}

/// A result that ends after `pos`; a result that does not is none.
pub open spec fn advanced(result: Option<(int, Syntax)>, pos: int) -> Option<(int, Syntax)> {
    match result {
        Some((next, _)) => if next > pos {
            result
        } else {
            None
        },
        None => None,
    }
}

/// A generator with its index in brackets, `Name(index)`, or a name. The index
/// is a name, for a pattern, or a number. A bracket that opens on a name or a
/// number and is not closed is no expression.
pub open spec fn parsed_named(s: Seq<char>, pos: int) -> Option<(int, Syntax)> {
    match parsed_word(s, pos) {
        Some((p, name)) => if char_at(s, p, '(') {
            match parsed_word(s, p + 1) {
                Some((q, index)) => if char_at(s, q, ')') {
                    Some((q + 1, Syntax::Kind(name, index)))
                } else {
                    None
                },
                None => match parsed_number(s, p + 1) {
                    Some((q, n)) => if char_at(s, q, ')') {
                        Some((q + 1, Syntax::Value(Expr::Kind(name, n))))
                    } else {
                        None
                    },
                    None => Some((p, Syntax::Named(name))),
                },
            }
        } else {
            Some((p, Syntax::Named(name)))
        },
        None => None,
    }
}

/// A number, as a value.
pub open spec fn parsed_number_value(s: Seq<char>, pos: int) -> Option<(int, Syntax)> {
    match parsed_number(s, pos) {
        Some((p, n)) => Some((p, Syntax::Value(Expr::Number(n)))),
        None => None,
    }
}

/// An expression in round brackets, `(A)`.
pub open spec fn parsed_paren(s: Seq<char>, pos: int) -> Option<(int, Syntax)>
    decreases s.len() - pos, 0int,
{
    if char_at(s, pos, '(') {
        proof {
            lemma_run_end_bounds(s, pos + 1, Class::Whitespace);
        }
        match parsed_value(s, after_space(s, pos + 1)) {
            Some((p, value)) => if char_at(s, p, ')') {
                Some((p + 1, value))
            } else {
                None
            },
            None => None,
        }
    } else {
        None
    }
}

/// A table lookup, `C(A, B)`.
pub open spec fn parsed_c(s: Seq<char>, pos: int) -> Option<(int, Syntax)>
    decreases s.len() - pos, 0int,
{
    if char_at(s, pos, 'C') && char_at(s, pos + 1, '(') {
        proof {
            lemma_run_end_bounds(s, pos + 2, Class::Whitespace);
        }
        match advanced(parsed_value(s, after_space(s, pos + 2)), pos) {
            Some((p, a)) => if char_at(s, p, ',') {
                proof {
                    lemma_run_end_bounds(s, p + 1, Class::Whitespace);
                }
                match parsed_value(s, after_space(s, p + 1)) {
                    Some((q, b)) => if char_at(s, q, ')') {
                        Some((q + 1, Syntax::C(Box::new(a), Box::new(b))))
                    } else {
                        None
                    },
                    None => None,
                }
            } else {
                None
            },
            None => None,
        }
    } else {
        None
    }
}

/// A bracket, `[A, B]`, and the white space after it.
pub open spec fn parsed_braket(s: Seq<char>, pos: int) -> Option<(int, Syntax)>
    decreases s.len() - pos, 0int,
{
    if char_at(s, pos, '[') {
        proof {
            lemma_run_end_bounds(s, pos + 1, Class::Whitespace);
        }
        match advanced(parsed_value(s, after_space(s, pos + 1)), pos) {
            Some((p, a)) => if char_at(s, p, ',') {
                proof {
                    lemma_run_end_bounds(s, p + 1, Class::Whitespace);
                }
                match parsed_value(s, after_space(s, p + 1)) {
                    Some((q, b)) => if char_at(s, q, ']') {
                        Some((after_space(s, q + 1), Syntax::Braket(Box::new(a), Box::new(b))))
                    } else {
                        None
                    },
                    None => None,
                }
            } else {
                None
            },
            None => None,
        }
    } else {
        None
    }
}

/// A negation, `-A`.
pub open spec fn parsed_negative(s: Seq<char>, pos: int) -> Option<(int, Syntax)>
    decreases s.len() - pos, 0int,
{
    if char_at(s, pos, '-') {
        proof {
            lemma_run_end_bounds(s, pos + 1, Class::Whitespace);
        }
        match parsed_value(s, after_space(s, pos + 1)) {
            Some((p, value)) => Some((p, Syntax::Negative(Box::new(value)))),
            None => None,
        }
    } else {
        None
    }
}

/// One operand: the first that can be read of an expression in round brackets,
/// a table lookup, a generator or a name, a number, a bracket, a negation.
pub open spec fn parsed_atom(s: Seq<char>, pos: int) -> Option<(int, Syntax)>
    decreases s.len() - pos, 1int,
{
    if parsed_paren(s, pos) is Some {
        parsed_paren(s, pos)
    } else if parsed_c(s, pos) is Some {
        parsed_c(s, pos)
    } else if parsed_named(s, pos) is Some {
        parsed_named(s, pos)
    } else if parsed_number_value(s, pos) is Some {
        parsed_number_value(s, pos)
    } else if parsed_braket(s, pos) is Some {
        parsed_braket(s, pos)
    } else {
        parsed_negative(s, pos)
    }
}

/// An expression: an operand and the white space after it, and then, after
/// `+`, `-` or `*`, the expression that follows, which is the right side of the
/// sum, the difference or the product. A difference `A - B` is the sum of `A`
/// and the negation of `B`. An operator with nothing to read after it is no
/// expression.
pub open spec fn parsed_value(s: Seq<char>, pos: int) -> Option<(int, Syntax)>
    decreases s.len() - pos, 2int,
{
    match advanced(parsed_atom(s, pos), pos) {
        Some((p, a)) => {
            let op = after_space(s, p);
            proof {
                lemma_run_end_bounds(s, p, Class::Whitespace);
                lemma_run_end_bounds(s, op + 1, Class::Whitespace);
            }
            if char_at(s, op, '+') {
                match parsed_value(s, after_space(s, op + 1)) {
                    Some((q, b)) => Some((q, Syntax::Add(Box::new(a), Box::new(b)))),
                    None => None,
                }
            } else if char_at(s, op, '-') {
                match parsed_value(s, after_space(s, op + 1)) {
                    Some((q, b)) => Some(
                        (q, Syntax::Add(Box::new(a), Box::new(Syntax::Negative(Box::new(b))))),
                    ),
                    None => None,
                }
            } else if char_at(s, op, '*') {
                match parsed_value(s, after_space(s, op + 1)) {
                    Some((q, b)) => Some((q, Syntax::Mul(Box::new(a), Box::new(b)))),
                    None => None,
                }
            } else {
                Some((op, a))
            }
        },
        None => None,
    }
}

/// The expression that a text starts with. What follows it is not read.
pub open spec fn parsed(s: Seq<char>) -> Option<Syntax> {
    match parsed_value(s, 0) {
        Some((_, syntax)) => Some(syntax),
        None => None,
    }
}

/// A sequence of digits writes a number that is not negative.
proof fn lemma_decimal_natural(digits: Seq<char>)
    requires
        forall|i: int| 0 <= i < digits.len() ==> is_digit(#[trigger] digits[i]),
    ensures
        decimal(digits) >= 0,
    decreases digits.len(),
{
    if digits.len() > 0 {
        let init = digits.drop_last();
        assert forall|i: int| 0 <= i < init.len() implies is_digit(#[trigger] init[i]) by {
            assert(init[i] == digits[i]);
        }
        lemma_decimal_natural(init);
        assert(is_digit(digits[digits.len() - 1]));
    }
}

/// A number that is read is not negative.
proof fn lemma_parsed_number_natural(s: Seq<char>, pos: int)
    ensures
        parsed_number(s, pos) matches Some((_, n)) ==> n >= 0,
{
    let end = run_end(s, pos, Class::Numeric);
    if 0 <= pos < end {
        let digits = s.subrange(pos, end);
        lemma_run_end_bounds(s, pos, Class::Numeric);
        assert forall|i: int| 0 <= i < digits.len() implies is_digit(#[trigger] digits[i]) by {
            lemma_run_holds(s, pos, Class::Numeric, pos + i);
        }
        lemma_decimal_natural(digits);
    }
}

/// What is read holds no negative number and no negative index.
pub proof fn lemma_parsed_unsigned(s: Seq<char>, pos: int)
    ensures
        parsed_value(s, pos) matches Some((_, syntax)) ==> syntax.unsigned(),
    decreases s.len() - pos, 2int,
{
    reveal_with_fuel(Syntax::unsigned, 3);
    match advanced(parsed_atom(s, pos), pos) {
        Some((p, a)) => {
            lemma_parsed_atom_unsigned(s, pos);
            let op = after_space(s, p);
            lemma_run_end_bounds(s, p, Class::Whitespace);
            lemma_run_end_bounds(s, op + 1, Class::Whitespace);
            if char_at(s, op, '+') || char_at(s, op, '-') || char_at(s, op, '*') {
                lemma_parsed_unsigned(s, after_space(s, op + 1));
            }
        },
        None => {},
    }
}

/// An operand that is read holds no negative number and no negative index.
proof fn lemma_parsed_atom_unsigned(s: Seq<char>, pos: int)
    ensures
        parsed_atom(s, pos) matches Some((_, syntax)) ==> syntax.unsigned(),
    decreases s.len() - pos, 1int,
{
    reveal_with_fuel(Syntax::unsigned, 3);
    reveal_with_fuel(Expr::unsigned, 2);
    lemma_parsed_number_natural(s, pos);
    if char_at(s, pos, '(') {
        lemma_run_end_bounds(s, pos + 1, Class::Whitespace);
        lemma_parsed_unsigned(s, after_space(s, pos + 1));
    }
    if char_at(s, pos, 'C') && char_at(s, pos + 1, '(') {
        lemma_run_end_bounds(s, pos + 2, Class::Whitespace);
        lemma_parsed_unsigned(s, after_space(s, pos + 2));
        match advanced(parsed_value(s, after_space(s, pos + 2)), pos) {
            Some((p, _)) => {
                if char_at(s, p, ',') {
                    lemma_run_end_bounds(s, p + 1, Class::Whitespace);
                    lemma_parsed_unsigned(s, after_space(s, p + 1));
                }
            },
            None => {},
        }
    }
    match parsed_word(s, pos) {
        Some((p, _)) => {
            lemma_parsed_number_natural(s, p + 1);
        },
        None => {},
    }
    if char_at(s, pos, '[') {
        lemma_run_end_bounds(s, pos + 1, Class::Whitespace);
        lemma_parsed_unsigned(s, after_space(s, pos + 1));
        match advanced(parsed_value(s, after_space(s, pos + 1)), pos) {
            Some((p, _)) => {
                if char_at(s, p, ',') {
                    lemma_run_end_bounds(s, p + 1, Class::Whitespace);
                    lemma_parsed_unsigned(s, after_space(s, p + 1));
                }
            },
            None => {},
        }
    }
    if char_at(s, pos, '-') {
        lemma_run_end_bounds(s, pos + 1, Class::Whitespace);
        lemma_parsed_unsigned(s, after_space(s, pos + 1));
    }
}

/// Whether what a reader returned from `src` is what the grammar gives there.
/// A reader that returns something has taken at least one character.
pub open spec fn parses<'a>(
    res: Option<(Parser<'a>, AST)>,
    src: Parser<'a>,
    model: Option<(int, Syntax)>,
) -> bool {
    match res {
        Some((next, ast)) => src.reaches(next) && next.index > src.index && model == Some(
            (next.index as int, ast@),
        ),
        None => model is None,
    }
}

/// Reads a table lookup.
pub fn parse_c<'a>(src: Parser<'a>) -> (res: Option<(Parser<'a>, AST)>)
    requires
        src.wf(),
    ensures
        parses(res, src, parsed_c(src.src@, src.index as int)),
    decreases src.src@.len() - src.index, 0int,
{
    let src1 = match src.starts_with_char('C') {
        Some(next) => next,
        None => {
            return None;
        },
    };
    let src2 = match src1.starts_with_char('(') {
        Some(next) => next,
        None => {
            return None;
        },
    };
    let src3 = src2.skip_whitespace();
    let (src4, a) = match parse_value(src3) {
        Some(read) => read,
        None => {
            return None;
        },
    };
    let src5 = match src4.starts_with_char(',') {
        Some(next) => next,
        None => {
            return None;
        },
    };
    let src6 = src5.skip_whitespace();
    let (src7, b) = match parse_value(src6) {
        Some(read) => read,
        None => {
            return None;
        },
    };
    match src7.starts_with_char(')') {
        Some(next) => Some((next, AST::C(Box::new(a), Box::new(b)))),
        None => None,
    }
}

/// Reads a generator or a name.
pub fn parse_named<'a>(src: Parser<'a>) -> (res: Option<(Parser<'a>, AST)>)
    requires
        src.wf(),
    ensures
        parses(res, src, parsed_named(src.src@, src.index as int)),
{
    let (after, name) = match parse_word(src) {
        Some(read) => read,
        None => {
            return None;
        },
    };
    match after.starts_with_char('(') {
        Some(inside) => {
            match parse_word(inside) {
                Some((next, index)) => {
                    return match next.starts_with_char(')') {
                        Some(end) => Some((end, AST::Kind(name, index))),
                        None => None,
                    };
                },
                None => {},
            }
            match parse_number(inside) {
                Some((next, index)) => {
                    return match next.starts_with_char(')') {
                        Some(end) => Some((end, AST::Value(Value::Kind(name, index)))),
                        None => None,
                    };
                },
                None => {},
            }
        },
        None => {},
    }
    Some((after, AST::Named(name)))
}

/// Reads a number as a value.
pub fn parse_number_value<'a>(src: Parser<'a>) -> (res: Option<(Parser<'a>, AST)>)
    requires
        src.wf(),
    ensures
        parses(res, src, parsed_number_value(src.src@, src.index as int)),
{
    match parse_number(src) {
        Some((next, n)) => Some((next, AST::Value(Value::Number(n)))),
        None => None,
    }
}

/// Reads a bracket.
pub fn parse_braket<'a>(src: Parser<'a>) -> (res: Option<(Parser<'a>, AST)>)
    requires
        src.wf(),
    ensures
        parses(res, src, parsed_braket(src.src@, src.index as int)),
    decreases src.src@.len() - src.index, 0int,
{
    let src1 = match src.starts_with_char('[') {
        Some(next) => next,
        None => {
            return None;
        },
    };
    let src2 = src1.skip_whitespace();
    let (src3, a) = match parse_value(src2) {
        Some(read) => read,
        None => {
            return None;
        },
    };
    let src4 = match src3.starts_with_char(',') {
        Some(next) => next,
        None => {
            return None;
        },
    };
    let src5 = src4.skip_whitespace();
    let (src6, b) = match parse_value(src5) {
        Some(read) => read,
        None => {
            return None;
        },
    };
    match src6.starts_with_char(']') {
        Some(next) => Some((next.skip_whitespace(), AST::Braket(Box::new(a), Box::new(b)))),
        None => None,
    }
}

/// Reads a negation.
pub fn parse_negative<'a>(src: Parser<'a>) -> (res: Option<(Parser<'a>, AST)>)
    requires
        src.wf(),
    ensures
        parses(res, src, parsed_negative(src.src@, src.index as int)),
    decreases src.src@.len() - src.index, 0int,
{
    let src1 = match src.starts_with_char('-') {
        Some(next) => next,
        None => {
            return None;
        },
    };
    let src2 = src1.skip_whitespace();
    match parse_value(src2) {
        Some((next, value)) => Some((next, AST::Negative(Box::new(value)))),
        None => None,
    }
}

/// Reads an expression in round brackets.
pub fn parse_paren<'a>(src: Parser<'a>) -> (res: Option<(Parser<'a>, AST)>)
    requires
        src.wf(),
    ensures
        parses(res, src, parsed_paren(src.src@, src.index as int)),
    decreases src.src@.len() - src.index, 0int,
{
    let src1 = match src.starts_with_char('(') {
        Some(next) => next,
        None => {
            return None;
        },
    };
    let src2 = src1.skip_whitespace();
    let (src3, value) = match parse_value(src2) {
        Some(read) => read,
        None => {
            return None;
        },
    };
    match src3.starts_with_char(')') {
        Some(next) => Some((next, value)),
        None => None,
    }
}

/// Reads one operand: the first of the forms that can be read.
pub fn parse_atom<'a>(src: Parser<'a>) -> (res: Option<(Parser<'a>, AST)>)
    requires
        src.wf(),
    ensures
        parses(res, src, parsed_atom(src.src@, src.index as int)),
    decreases src.src@.len() - src.index, 1int,
{
    match parse_paren(src) {
        Some(read) => {
            return Some(read);
        },
        None => {},
    }
    match parse_c(src) {
        Some(read) => {
            return Some(read);
        },
        None => {},
    }
    match parse_named(src) {
        Some(read) => {
            return Some(read);
        },
        None => {},
    }
    match parse_number_value(src) {
        Some(read) => {
            return Some(read);
        },
        None => {},
    }
    match parse_braket(src) {
        Some(read) => {
            return Some(read);
        },
        None => {},
    }
    parse_negative(src)
}

/// Reads an expression.
pub fn parse_value<'a>(src: Parser<'a>) -> (res: Option<(Parser<'a>, AST)>)
    requires
        src.wf(),
    ensures
        parses(res, src, parsed_value(src.src@, src.index as int)),
    decreases src.src@.len() - src.index, 2int,
{
    proof {
        reveal_with_fuel(AST::syntax, 3);
    }
    let (after, a) = match parse_atom(src) {
        Some(read) => read,
        None => {
            return None;
        },
    };
    let op = after.skip_whitespace();
    match op.starts_with_char('+') {
        Some(next) => {
            return match parse_value(next.skip_whitespace()) {
                Some((end, b)) => Some((end, AST::Add(Box::new(a), Box::new(b)))),
                None => None,
            };
        },
        None => {},
    }
    match op.starts_with_char('-') {
        Some(next) => {
            return match parse_value(next.skip_whitespace()) {
                Some((end, b)) => Some(
                    (end, AST::Add(Box::new(a), Box::new(AST::Negative(Box::new(b))))),
                ),
                None => None,
            };
        },
        None => {},
    }
    match op.starts_with_char('*') {
        Some(next) => {
            return match parse_value(next.skip_whitespace()) {
                Some((end, b)) => Some((end, AST::Mul(Box::new(a), Box::new(b)))),
                None => None,
            };
        },
        None => {},
    }
    Some((op, a))
}

/// Reads the expression that `src` starts with. What follows it is not read.
/// Fails with `InvalidExpression` where `src` starts with none.
pub fn parse(src: &str) -> (res: Result<AST, Error>)
    ensures
        match res {
            Ok(ast) => parsed(src@) == Some(ast@) && ast@.unsigned(),
            Err(e) => parsed(src@) is None && e@ == Failure::InvalidExpression,
        },
{
    proof {
        lemma_parsed_unsigned(src@, 0);
    }
    match parse_value(Parser::new(src)) {
        Some((_, ast)) => Ok(ast),
        None => Err(Error::InvalidExpression),
    }
}

/// The first place at or after `pos` where `c` stands, or the end of the text.
pub open spec fn position_of(s: Seq<char>, pos: int, c: char) -> int
    decreases s.len() - pos,
{
    if 0 <= pos < s.len() && s[pos] != c {
        position_of(s, pos + 1, c)
    } else {
        pos
    }
}

/// The text without the white space at its two ends.
pub open spec fn trimmed(s: Seq<char>) -> Seq<char>
    decreases s.len(),
{
    if s.len() > 0 && is_space(s[0]) {
        trimmed(s.drop_first())
    } else if s.len() > 0 && is_space(s.last()) {
        trimmed(s.drop_last())
    } else {
        s
    }
}

/// The rule that a line writes: `pattern = replacement`, with exactly one `=`.
/// White space around the two sides does not count.
pub open spec fn rule_of(line: Seq<char>) -> Result<(Syntax, Syntax), Failure> {
    let middle = position_of(line, 0, '=');
    if middle >= line.len() || position_of(line, middle + 1, '=') < line.len() {
        Err(Failure::InvalidRuleLine)
    } else {
        match (
            parsed(trimmed(line.subrange(0, middle))),
            parsed(trimmed(line.subrange(middle + 1, line.len() as int))),
        ) {
            (Some(pattern), Some(replacement)) => Ok((pattern, replacement)),
            _ => Err(Failure::InvalidExpression),
        }
    }
}

/// The rules that the text from `pos` on writes, one on each line that holds
/// more than white space, in the order of the lines. The first line that
/// writes no rule makes the failure.
pub open spec fn loaded_from(text: Seq<char>, pos: int) -> Result<Seq<(Syntax, Syntax)>, Failure>
    decreases text.len() - pos + 1,
{
    if pos < 0 || pos >= text.len() {
        Ok(Seq::empty())
    } else {
        let end = position_of(text, pos, '\n');
        proof {
            lemma_position_of_bounds(text, pos, '\n');
        }
        let line = trimmed(text.subrange(pos, end));
        if line.len() == 0 {
            loaded_from(text, end + 1)
        } else {
            match rule_of(line) {
                Ok(rule) => match loaded_from(text, end + 1) {
                    Ok(rules) => Ok(seq![rule] + rules),
                    Err(e) => Err(e),
                },
                Err(e) => Err(e),
            }
        }
    }
}

/// The rules that a text writes.
pub open spec fn loaded(text: Seq<char>) -> Result<Seq<(Syntax, Syntax)>, Failure> {
    loaded_from(text, 0)
}

/// The place that is found lies at or after the start, and inside the text
/// where the start does.
pub proof fn lemma_position_of_bounds(s: Seq<char>, pos: int, c: char)
    ensures
        pos <= position_of(s, pos, c),
        pos <= s.len() ==> position_of(s, pos, c) <= s.len(),
    decreases s.len() - pos,
{
    if 0 <= pos < s.len() && s[pos] != c {
        lemma_position_of_bounds(s, pos + 1, c);
    }
}

/// The first place at or after `from` where `c` stands in `src`, or its length.
fn find_char(src: &str, from: usize, c: char) -> (res: usize)
    requires
        from <= src@.len(),
    ensures
        res == position_of(src@, from as int, c),
        from <= res <= src@.len(),
{
    let len = src.unicode_len();
    let mut index = from;
    while index < len && src.get_char(index) != c
        invariant
            from <= index <= len,
            len == src@.len(),
            position_of(src@, index as int, c) == position_of(src@, from as int, c),
        decreases len - index,
    {
        index += 1;
    }
    index
}

/// The text without the white space at its two ends.
fn trim<'a>(src: &'a str) -> (res: &'a str)
    ensures
        res@ == trimmed(src@),
{
    let len = src.unicode_len();
    let mut start: usize = 0;
    assert(src@.subrange(0, len as int) =~= src@);
    while start < len && Class::Whitespace.contains(src.get_char(start))
        invariant
            start <= len,
            len == src@.len(),
            trimmed(src@) == trimmed(src@.subrange(start as int, len as int)),
        decreases len - start,
    {
        assert(src@.subrange(start as int, len as int).drop_first() =~= src@.subrange(
            start + 1,
            len as int,
        ));
        start += 1;
    }
    let mut end: usize = len;
    while end > start && Class::Whitespace.contains(src.get_char(end - 1))
        invariant
            start <= end <= len,
            len == src@.len(),
            start < len ==> !is_space(src@[start as int]),
            trimmed(src@) == trimmed(src@.subrange(start as int, end as int)),
        decreases end,
    {
        assert(src@.subrange(start as int, end as int).drop_last() =~= src@.subrange(
            start as int,
            end - 1,
        ));
        end -= 1;
    }
    src.substring_char(start, end)
}

/// Reads the rule that `line` writes.
fn load_rule(line: &str) -> (res: Result<(AST, AST), Error>)
    ensures
        match res {
            Ok(rule) => rule_of(line@) == Ok::<(Syntax, Syntax), Failure>((rule.0@, rule.1@))
                && rule.1@.unsigned(),
            Err(e) => rule_of(line@) == Err::<(Syntax, Syntax), Failure>(e@),
        },
{
    let len = line.unicode_len();
    let middle = find_char(line, 0, '=');
    if middle >= len {
        return Err(Error::InvalidRuleLine);
    }
    if find_char(line, middle + 1, '=') < len {
        return Err(Error::InvalidRuleLine);
    }
    let pattern = parse(trim(line.substring_char(0, middle)));
    let replacement = parse(trim(line.substring_char(middle + 1, len)));
    match pattern {
        Ok(pattern) => match replacement {
            Ok(replacement) => Ok((pattern, replacement)),
            Err(e) => Err(e),
        },
        Err(e) => Err(e),
    }
}

/// The rules before a place, followed by what the text writes from there on.
pub open spec fn continued(
    before: Seq<(Syntax, Syntax)>,
    rest: Result<Seq<(Syntax, Syntax)>, Failure>,
) -> Result<Seq<(Syntax, Syntax)>, Failure> {
    match rest {
        Ok(rules) => Ok(before + rules),
        Err(e) => Err(e),
    }
}

/// Whether no replacement of the rules holds a negative number or index.
pub open spec fn rules_unsigned(rules: Seq<(Syntax, Syntax)>) -> bool {
    forall|i: int| 0 <= i < rules.len() ==> (#[trigger] rules[i]).1.unsigned()
}

/// The rules that a list of patterns and replacements stands for, in its order.
pub open spec fn rules_of(patterns: Seq<(AST, AST)>) -> Seq<(Syntax, Syntax)> {
    Seq::new(patterns.len(), |i: int| (patterns[i].0@, patterns[i].1@))
}

/// Reads the rules that `text` writes: one rule, `pattern = replacement`, on
/// each line that holds more than white space.
///
/// Fails with `InvalidRuleLine` at the first such line that does not hold
/// exactly one `=`, and with `InvalidExpression` where a side of it is no
/// expression.
pub fn load(text: &str) -> (res: Result<Vec<(AST, AST)>, Error>)
    ensures
        match res {
            Ok(rules) => loaded(text@) == Ok::<Seq<(Syntax, Syntax)>, Failure>(rules_of(rules@))
                && rules_unsigned(rules_of(rules@)),
            Err(e) => loaded(text@) == Err::<Seq<(Syntax, Syntax)>, Failure>(e@),
        },
{
    let len = text.unicode_len();
    let mut rules: Vec<(AST, AST)> = Vec::new();
    let mut pos: usize = 0;
    assert(rules_of(rules@) =~= Seq::empty());
    assert(loaded(text@) == continued(rules_of(rules@), loaded_from(text@, 0))) by {
        match loaded_from(text@, 0) {
            Ok(rest) => {
                assert(Seq::<(Syntax, Syntax)>::empty() + rest =~= rest);
            },
            Err(_) => {},
        }
    }
    while pos < len
        invariant
            len == text@.len(),
            loaded(text@) == continued(rules_of(rules@), loaded_from(text@, pos as int)),
            rules_unsigned(rules_of(rules@)),
        decreases len - pos,
    {
        let end = find_char(text, pos, '\n');
        let line = trim(text.substring_char(pos, end));
        let ghost before = rules_of(rules@);
        if line.unicode_len() != 0 {
            match load_rule(line) {
                Ok(rule) => {
                    let ghost added = (rule.0@, rule.1@);
                    rules.push(rule);
                    proof {
                        assert(rules_of(rules@) =~= before.push(added));
                        match loaded_from(text@, end + 1) {
                            Ok(rest) => {
                                assert(before + (seq![added] + rest) =~= before.push(added)
                                    + rest);
                            },
                            Err(_) => {},
                        }
                    }
                },
                Err(e) => {
                    return Err(e);
                },
            }
        }
        if end >= len {
            proof {
                assert(loaded_from(text@, end + 1) == Ok::<Seq<(Syntax, Syntax)>, Failure>(
                    Seq::empty(),
                ));
                assert(rules_of(rules@) + Seq::<(Syntax, Syntax)>::empty() =~= rules_of(rules@));
            }
            return Ok(rules);
        }
        pos = end + 1;
    }
    proof {
        assert(rules_of(rules@) + Seq::<(Syntax, Syntax)>::empty() =~= rules_of(rules@));
    }
    Ok(rules)
}

} // verus!
