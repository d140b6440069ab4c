//! The value tree: evaluated algebraic expressions, and their mathematical view.

use vstd::prelude::*;

verus! {

/// The mathematical expression that a [`Value`] stands for.
pub enum Expr {
    Number(int),
    Braket(Box<Expr>, Box<Expr>),
    Kind(Seq<char>, int),
    Negative(Box<Expr>),
    Add(Box<Expr>, Box<Expr>),
    Mul(Box<Expr>, Box<Expr>),
}

impl Expr {
    /// The zero of the algebra.
    pub open spec fn zero() -> Expr {
        Expr::Number(0)
    }

    /// The integer that a literal stands for: a number under any count of signs.
    /// Anything else is no literal.
    pub open spec fn literal(self) -> Option<int>
        decreases self,
    {
        match self {
            Expr::Number(n) => Some(n),
            Expr::Negative(a) => match a.literal() {
                Some(n) => Some(-n),
                None => None,
            },
            _ => None,
        }
    }

    /// The literal for `n`: its magnitude, under one sign where `n` is negative.
    pub open spec fn of_int(n: int) -> Expr {
        if n >= 0 {
            Expr::Number(n)
        } else {
            Expr::Negative(Box::new(Expr::Number(-n)))
        }
    }

    /// The number of nodes of the tree.
    pub open spec fn size(self) -> nat
        decreases self,
    {
        match self {
            Expr::Number(_) => 1,
            Expr::Kind(_, _) => 1,
            Expr::Negative(a) => 1 + a.size(),
            Expr::Braket(a, b) | Expr::Add(a, b) | Expr::Mul(a, b) => 1 + a.size() + b.size(),
        }
    }

    /// No number and no index of a generator in the tree is negative: signs are
    /// carried by `Negative` alone. Values that are read from text are so, and
    /// evaluation, matching, rewriting, canonical form and collection keep
    /// them so.
    pub open spec fn unsigned(self) -> bool
        decreases self,
    {
        match self {
            Expr::Number(n) => n >= 0,
            Expr::Kind(_, index) => index >= 0,
            Expr::Negative(a) => a.unsigned(),
            Expr::Braket(a, b) | Expr::Add(a, b) | Expr::Mul(a, b) => a.unsigned() && b.unsigned(),
        }
    }
}

/// An evaluated expression of the algebra.
#[derive(Debug)]
pub enum Value {
    Number(i32),
    Braket(Box<Value>, Box<Value>),
    Kind(String, i32),
    Negative(Box<Value>),
    Add(Box<Value>, Box<Value>),
    Mul(Box<Value>, Box<Value>),
}

impl Value {
    /// The expression this value stands for.
    pub open spec fn expr(self) -> Expr
        decreases self,
    {
        match self {
            Value::Number(n) => Expr::Number(n as int),
            Value::Braket(a, b) => Expr::Braket(Box::new(a.expr()), Box::new(b.expr())),
            Value::Kind(name, index) => Expr::Kind(name@, index as int),
            Value::Negative(a) => Expr::Negative(Box::new(a.expr())),
            Value::Add(a, b) => Expr::Add(Box::new(a.expr()), Box::new(b.expr())),
            Value::Mul(a, b) => Expr::Mul(Box::new(a.expr()), Box::new(b.expr())),
        }
    }

    /// The zero of the algebra.
    pub fn zero() -> (res: Value)
        ensures
            res@ == Expr::zero(),
    {
        Value::Number(0)
    }

    /// The number one.
    pub fn one() -> (res: Value)
        ensures
            res@ == Expr::Number(1),
    {
        Value::Number(1)
    }

    /// Whether this is a generator.
    pub(crate) fn is_kind(&self) -> (res: bool)
        ensures
            res == (self@ is Kind),
    {
        matches!(self, Value::Kind(_, _))
    }

    /// Whether this is a bracket.
    pub(crate) fn is_braket(&self) -> (res: bool)
        ensures
            res == (self@ is Braket),
    {
        matches!(self, Value::Braket(_, _))
    }

    /// The index of a generator.
    pub(crate) fn kind_index(&self) -> (res: Option<i32>)
        ensures
            match res {
                Some(index) => self@ matches Expr::Kind(_, i) && i == index,
                None => !(self@ is Kind),
            },
    {
        match self {
            Value::Kind(_, index) => Some(*index),
            _ => None,
        }
    }

    /// The signed value of a literal, exact for every tree.
    pub(crate) fn signed_literal(&self) -> (res: Option<i64>)
        ensures
            res matches Some(n) ==> self@.literal() == Some(n as int) && -0x8000_0000 <= n
                <= 0x8000_0000,
            res is None ==> self@.literal() is None,
        decreases self,
    {
        match self {
            Value::Number(n) => Some(*n as i64),
            Value::Negative(a) => match a.signed_literal() {
                Some(n) => Some(-n),
                None => None,
            },
            _ => None,
        }
    }

    /// The integer this value stands for, if it is a literal whose value fits in
    /// an `i32`.
    pub fn into_number(&self) -> (res: Option<i32>)
        ensures
            res == match self@.literal() {
                Some(n) => if i32::MIN <= n <= i32::MAX {
                    Some(n as i32)
                } else {
                    None
                },
                None => None,
            },
    {
        match self.signed_literal() {
            Some(n) => if n <= 0x7fff_ffff {
                Some(n as i32)
            } else {
                None
            },
            None => None,
        }
    }
}

impl View for Value {
    type V = Expr;

    open spec fn view(&self) -> Expr {
        self.expr()
    }
}

impl Clone for Value {
    fn clone(&self) -> (res: Value)
        ensures
            res@ == self@,
        decreases self,
    {
        match self {
            Value::Number(n) => Value::Number(*n),
            Value::Braket(a, b) => Value::Braket(Box::new((&**a).clone()), Box::new((&**b).clone())),
            Value::Kind(name, index) => Value::Kind(name.clone(), *index),
            Value::Negative(a) => Value::Negative(Box::new((&**a).clone())),
            Value::Add(a, b) => Value::Add(Box::new((&**a).clone()), Box::new((&**b).clone())),
            Value::Mul(a, b) => Value::Mul(Box::new((&**a).clone()), Box::new((&**b).clone())),
        }
    }
}

impl PartialEq for Value {
    fn eq(&self, other: &Value) -> (res: bool)
        decreases self,
    {
        match self {
            Value::Number(n) => match other {
                Value::Number(m) => *n == *m,
                _ => false,
            },
            Value::Braket(a, b) => match other {
                Value::Braket(c, d) => (&**a).eq(&**c) && (&**b).eq(&**d),
                _ => false,
            },
            Value::Kind(name, index) => match other {
                Value::Kind(other_name, other_index) => *name == *other_name && *index == *other_index,
                _ => false,
            },
            Value::Negative(a) => match other {
                Value::Negative(c) => (&**a).eq(&**c),
                _ => false,
            },
            Value::Add(a, b) => match other {
                Value::Add(c, d) => (&**a).eq(&**c) && (&**b).eq(&**d),
                _ => false,
            },
            Value::Mul(a, b) => match other {
                Value::Mul(c, d) => (&**a).eq(&**c) && (&**b).eq(&**d),
                _ => false,
            },
        }
    }
}

impl Eq for Value {

}

impl vstd::std_specs::cmp::PartialEqSpecImpl for Value {
    open spec fn obeys_eq_spec() -> bool {
        true
    }

    open spec fn eq_spec(&self, other: &Value) -> bool {
        self@ == other@
    }
}

/// The bracket `[a, b]`.
pub fn brak(a: Value, b: Value) -> (res: Value)
    ensures
        res@ == Expr::Braket(Box::new(a@), Box::new(b@)),
        a@.unsigned() && b@.unsigned() ==> res@.unsigned(),
{
    Value::Braket(Box::new(a), Box::new(b))
}

/// The generator `H(n)`.
#[allow(non_snake_case)]
pub fn H(n: i32) -> (res: Value)
    ensures
        res@ == Expr::Kind("H"@, n as int),
        n >= 0 ==> res@.unsigned(),
{
    Value::Kind("H".to_owned(), n)
}

/// The generator `E(n)`.
#[allow(non_snake_case)]
pub fn E(n: i32) -> (res: Value)
    ensures
        res@ == Expr::Kind("E"@, n as int),
        n >= 0 ==> res@.unsigned(),
{
    Value::Kind("E".to_owned(), n)
}

/// The generator `F(n)`.
#[allow(non_snake_case)]
pub fn F(n: i32) -> (res: Value)
    ensures
        res@ == Expr::Kind("F"@, n as int),
        n >= 0 ==> res@.unsigned(),
{
    Value::Kind("F".to_owned(), n)
}

/// The literal for `n`: its magnitude, under one sign where `n` is negative.
pub fn number(n: i32) -> (res: Value)
    requires
        n > i32::MIN,
    ensures
        res@ == Expr::of_int(n as int),
        res@.unsigned(),
{
    if n >= 0 {
        Value::Number(n)
    } else {
        let magnitude = Value::Number(-n);
        assert(magnitude@ == Expr::Number(-(n as int)));
        assert(magnitude@.unsigned());
        Value::Negative(Box::new(magnitude))
    }
}

} // verus!
