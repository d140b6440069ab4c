//! Values written as text.

use vstd::prelude::*;
use vstd::string::StringExecFns;
use crate::v2::Monomial;
use crate::value::{Expr, Value};

verus! {

/// The digit `d` as text.
pub open spec fn digit_text(d: int) -> Seq<char> {
    if d == 0 {
        "0"@
    } else if d == 1 {
        "1"@
    } else if d == 2 {
        "2"@
    } else if d == 3 {
        "3"@
    } else if d == 4 {
        "4"@
    } else if d == 5 {
        "5"@
    } else if d == 6 {
        "6"@
    } else if d == 7 {
        "7"@
    } else if d == 8 {
        "8"@
    } else {
        "9"@
    }
}

/// A natural number in base ten, without leading zeros.
pub open spec fn digits(n: nat) -> Seq<char>
    decreases n,
{
    if n < 10 {
        digit_text(n as int)
    } else {
        digits(n / 10) + digit_text((n % 10) as int)
    }
}

/// An integer in base ten, with `-` before a negative one.
pub open spec fn integer_text(n: int) -> Seq<char> {
    if n < 0 {
        "-"@ + digits((-n) as nat)
    } else {
        digits(n as nat)
    }
}

/// An expression as text: `[a, b]` for a bracket, `Name(index)` for a
/// generator, `-a`, `a + b` and `a * b`.
pub open spec fn rendered(value: Expr) -> Seq<char>
    decreases value,
{
    match value {
        Expr::Number(n) => integer_text(n),
        Expr::Braket(a, b) => "["@ + rendered(*a) + ", "@ + rendered(*b) + "]"@,
        Expr::Kind(name, index) => name + "("@ + integer_text(index) + ")"@,
        Expr::Negative(a) => "-"@ + rendered(*a),
        Expr::Add(a, b) => rendered(*a) + " + "@ + rendered(*b),
        Expr::Mul(a, b) => rendered(*a) + " * "@ + rendered(*b),
    }
}

/// The brackets that open a term: `[`, written `count` times.
pub open spec fn opened(count: nat) -> Seq<char>
    decreases count,
{
    if count == 0 {
        Seq::empty()
    } else {
        opened((count - 1) as nat) + "["@
    }
}

/// The generators of a term from the one at `from` on, each closing a bracket:
/// `, E(b)], E(c)]`.
pub open spec fn closed(es: Seq<i32>, from: int) -> Seq<char>
    decreases es.len() - from,
{
    if from < 1 || from >= es.len() {
        Seq::empty()
    } else {
        ", E("@ + integer_text(es[from] as int) + ")]"@ + closed(es, from + 1)
    }
}

/// A term as text: `n * [[E(a), E(b)], E(c)] + `.
pub open spec fn term_text(term: Monomial) -> Seq<char> {
    let generators = if term.1.len() == 0 {
        Seq::empty()
    } else {
        opened((term.1.len() - 1) as nat) + "E("@ + integer_text(term.1[0] as int) + ")"@ + closed(
            term.1,
            1,
        )
    };
    integer_text(term.0) + " * "@ + generators + " + "@
}

/// A sum of terms as text, from the term at `from` on.
pub open spec fn sum_text(terms: Seq<Monomial>, from: int) -> Seq<char>
    decreases terms.len() - from,
{
    if from < 0 || from >= terms.len() {
        Seq::empty()
    } else {
        term_text(terms[from]) + sum_text(terms, from + 1)
    }
}

/// The digit `d` as text.
fn digit_str(d: u64) -> (res: &'static str)
    requires
        d < 10,
    ensures
        res@ == digit_text(d as int),
{
    if d == 0 {
        "0"
    } else if d == 1 {
        "1"
    } else if d == 2 {
        "2"
    } else if d == 3 {
        "3"
    } else if d == 4 {
        "4"
    } else if d == 5 {
        "5"
    } else if d == 6 {
        "6"
    } else if d == 7 {
        "7"
    } else if d == 8 {
        "8"
    } else {
        "9"
    }
}

/// Appends `n` in base ten.
fn push_digits(out: &mut String, n: u64)
    ensures
        final(out)@ == old(out)@ + digits(n as nat),
    decreases n,
{
    if n >= 10 {
        push_digits(out, n / 10);
    }
    out.append(digit_str(n % 10));
    proof {
        if n >= 10 {
            assert(old(out)@ + digits((n / 10) as nat) + digit_text((n % 10) as int) =~= old(out)@
                + (digits((n / 10) as nat) + digit_text((n % 10) as int)));
        }
    }
}

/// Appends `n` in base ten, with its sign.
fn push_integer(out: &mut String, n: i32)
    ensures
        final(out)@ == old(out)@ + integer_text(n as int),
{
    if n < 0 {
        out.append("-");
        let magnitude: i64 = -(n as i64);
        push_digits(out, magnitude as u64);
        assert(old(out)@ + "-"@ + digits((-n) as nat) =~= old(out)@ + ("-"@ + digits((-n) as nat)));
    } else {
        push_digits(out, n as u64);
    }
}

/// Appends `value` as text.
fn push_value(out: &mut String, value: &Value)
    ensures
        final(out)@ == old(out)@ + rendered(value@),
    decreases value,
{
    let ghost start = out@;
    match value {
        Value::Number(n) => {
            push_integer(out, *n);
        },
        Value::Braket(a, b) => {
            out.append("[");
            push_value(out, a);
            out.append(", ");
            push_value(out, b);
            out.append("]");
            assert(out@ =~= start + ("["@ + rendered(a@) + ", "@ + rendered(b@) + "]"@));
        },
        Value::Kind(name, index) => {
            out.append(name.as_str());
            out.append("(");
            push_integer(out, *index);
            out.append(")");
            assert(out@ =~= start + (name@ + "("@ + integer_text(*index as int) + ")"@));
        },
        Value::Negative(a) => {
            out.append("-");
            push_value(out, a);
            assert(out@ =~= start + ("-"@ + rendered(a@)));
        },
        Value::Add(a, b) => {
            push_value(out, a);
            out.append(" + ");
            push_value(out, b);
            assert(out@ =~= start + (rendered(a@) + " + "@ + rendered(b@)));
        },
        Value::Mul(a, b) => {
            push_value(out, a);
            out.append(" * ");
            push_value(out, b);
            assert(out@ =~= start + (rendered(a@) + " * "@ + rendered(b@)));
        },
    }
}

impl Value {
    /// This value as text.
    pub fn to_string(&self) -> (res: String)
        ensures
            res@ == rendered(self@),
    {
        let mut out = String::new();
        push_value(&mut out, self);
        assert(Seq::<char>::empty() + rendered(self@) =~= rendered(self@));
        out
    }
}

impl crate::v2::Term {
    /// This term as text.
    pub fn to_string(&self) -> (res: String)
        ensures
            res@ == term_text(self@),
    {
        let mut out = String::new();
        push_integer(&mut out, self.n);
        out.append(" * ");
        let ghost head = integer_text(self.n as int) + " * "@;
        assert(out@ =~= head);
        let len = self.es.len();
        if len > 0 {
            let mut i: usize = 1;
            while i < len
                invariant
                    1 <= i <= len,
                    out@ == head + opened((i - 1) as nat),
                decreases len - i,
            {
                out.append("[");
                assert(head + opened((i - 1) as nat) + "["@ =~= head + opened(i as nat));
                i += 1;
            }
            out.append("E(");
            push_integer(&mut out, self.es[0]);
            out.append(")");
            let ghost first = head + opened((len - 1) as nat) + "E("@ + integer_text(
                self.es@[0] as int,
            ) + ")"@;
            assert(out@ =~= first);
            let mut i: usize = 1;
            while i < len
                invariant
                    1 <= i <= len,
                    len == self.es@.len(),
                    out@ + closed(self.es@, i as int) == first + closed(self.es@, 1),
                decreases len - i,
            {
                let ghost before = out@;
                out.append(", E(");
                push_integer(&mut out, self.es[i]);
                out.append(")]");
                assert(out@ + closed(self.es@, i + 1) =~= before + closed(self.es@, i as int));
                i += 1;
            }
            assert(out@ + closed(self.es@, len as int) =~= out@);
            out.append(" + ");
            assert(out@ =~= term_text(self@));
        } else {
            out.append(" + ");
            assert(out@ =~= term_text(self@));
        }
        out
    }
}

impl crate::v2::Value {
    /// This sum as text: each term as `n * [[E(a), E(b)], E(c)] + `.
    pub fn to_string(&self) -> (res: String)
        ensures
            res@ == sum_text(self@, 0),
    {
        let mut out = String::new();
        let mut i: usize = 0;
        assert(out@ + sum_text(self@, 0) =~= sum_text(self@, 0));
        while i < self.terms.len()
            invariant
                i <= self.terms@.len(),
                out@ + sum_text(self@, i as int) == sum_text(self@, 0),
            decreases self.terms@.len() - i,
        {
            let ghost before = out@;
            let text = self.terms[i].to_string();
            out.append(text.as_str());
            assert(self@[i as int] == self.terms@[i as int]@);
            assert(out@ + sum_text(self@, i + 1) =~= before + sum_text(self@, i as int));
            i += 1;
        }
        assert(out@ + sum_text(self@, i as int) =~= out@);
        out
    }
}

} // verus!
