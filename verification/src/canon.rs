//! The canonicalizer: gives the two sides of a bracket a fixed order, and keeps
//! the sign that the antisymmetry `[a, b] = -[b, a]` asks for.

use vstd::prelude::*;
use crate::value::{Expr, Value};

verus! {

/// The rule for a bracket of two generators: the higher index comes first. A
/// pair that is not in that order is exchanged, under one sign. Anything that
/// is no such bracket is left as it is.
pub open spec fn ordered_pair(value: Expr) -> Expr {
    match value {
        Expr::Braket(x, y) => match (*x, *y) {
            (Expr::Kind(_, index_x), Expr::Kind(_, index_y)) => if index_x > index_y {
                value
            } else {
                Expr::Negative(Box::new(Expr::Braket(y, x)))
            },
            _ => value,
        },
        _ => value,
    }
}

/// The canonical form of `value`.
///
/// A bracket of two generators follows [`ordered_pair`]. A bracket of a
/// generator and a bracket has the nested bracket brought to canonical form
/// first and put on the left; the exchange, where the generator stood on the
/// left, and a sign that the nested bracket has brought, make one sign, which
/// stands outside. What a sign is taken from goes through the pair rule once
/// more. Every other value is left as it is.
pub open spec fn canonical(value: Expr) -> Expr
    decreases value,
{
    match value {
        Expr::Braket(x, y) => match (*x, *y) {
            (Expr::Kind(_, _), Expr::Kind(_, _)) => ordered_pair(value),
            (Expr::Kind(_, _), Expr::Braket(_, _)) => match canonical(*y) {
                Expr::Negative(inner) => Expr::Braket(Box::new(ordered_pair(*inner)), x),
                inner => Expr::Negative(Box::new(Expr::Braket(Box::new(inner), x))),
            },
            (Expr::Braket(_, _), Expr::Kind(_, _)) => match canonical(*x) {
                Expr::Negative(inner) => Expr::Negative(
                    Box::new(Expr::Braket(Box::new(ordered_pair(*inner)), y)),
                ),
                inner => Expr::Braket(Box::new(inner), y),
            },
            _ => value,
        },
        _ => value,
    }
}

/// The canonical form of a bracket is a bracket, or a bracket under one sign;
/// and on what such a sign is taken from, the pair rule is the canonical form.
proof fn lemma_canonical_shape(value: Expr)
    requires
        value is Braket,
    ensures
        canonical(canonical(value)) == canonical(value),
        canonical(value) is Braket || (canonical(value) matches Expr::Negative(inner)
            && *inner is Braket),
        canonical(value) matches Expr::Negative(inner) ==> canonical(*inner) == ordered_pair(
            *inner,
        ),
    decreases value,
{
    match value {
        Expr::Braket(x, y) => match (*x, *y) {
            (Expr::Kind(_, _), Expr::Kind(_, _)) => {},
            (Expr::Kind(_, _), Expr::Braket(_, _)) => {
                lemma_canonical_shape(*y);
                match canonical(*y) {
                    Expr::Negative(inner) => {
                        let settled = ordered_pair(*inner);
                        assert(canonical(*inner) == settled);
                        let result = Expr::Braket(Box::new(settled), x);
                        assert(canonical(value) == result);
                        if settled is Negative {
                            assert(canonical(result) == result);
                        } else {
                            assert(settled == *inner);
                            assert(canonical(result) == result);
                        }
                    },
                    inner => {
                        let under = Expr::Braket(Box::new(inner), x);
                        assert(canonical(value) == Expr::Negative(Box::new(under)));
                        assert(canonical(inner) == inner);
                        assert(canonical(under) == under);
                        assert(ordered_pair(under) == under);
                    },
                }
            },
            (Expr::Braket(_, _), Expr::Kind(_, _)) => {
                lemma_canonical_shape(*x);
                match canonical(*x) {
                    Expr::Negative(inner) => {
                        let settled = ordered_pair(*inner);
                        assert(canonical(*inner) == settled);
                        let under = Expr::Braket(Box::new(settled), y);
                        assert(canonical(value) == Expr::Negative(Box::new(under)));
                        if settled is Negative {
                            assert(canonical(under) == under);
                        } else {
                            assert(settled == *inner);
                            assert(canonical(under) == under);
                        }
                        assert(ordered_pair(under) == under);
                    },
                    inner => {
                        let result = Expr::Braket(Box::new(inner), y);
                        assert(canonical(value) == result);
                        assert(canonical(inner) == inner);
                        assert(canonical(result) == result);
                    },
                }
            },
            _ => {},
        },
        _ => {},
    }
}

/// Canonical forms are fixed: bringing a canonical form to canonical form
/// changes nothing.
pub proof fn lemma_canonical_idempotent(value: Expr)
    ensures
        canonical(canonical(value)) == canonical(value),
{
    if value is Braket {
        lemma_canonical_shape(value);
    }
}

/// Antisymmetry on generators: where the index of `a` is below that of `b`, the
/// canonical form of `[a, b]` is the canonical form of `[b, a]` under one sign.
pub proof fn lemma_canonical_antisymmetric(a: Expr, b: Expr)
    requires
        a is Kind,
        b is Kind,
        a->Kind_1 < b->Kind_1,
    ensures
        canonical(Expr::Braket(Box::new(a), Box::new(b))) == Expr::Negative(
            Box::new(canonical(Expr::Braket(Box::new(b), Box::new(a)))),
        ),
{
}

/// The pair rule makes nothing negative.
proof fn lemma_ordered_pair_unsigned(value: Expr)
    requires
        value.unsigned(),
    ensures
        ordered_pair(value).unsigned(),
{
    reveal_with_fuel(Expr::unsigned, 3);
}

/// Canonical form makes nothing negative: where no number and no index of
/// `value` is negative, none of its canonical form is.
pub proof fn lemma_canonical_unsigned(value: Expr)
    requires
        value.unsigned(),
    ensures
        canonical(value).unsigned(),
    decreases value,
{
    match value {
        Expr::Braket(x, y) => match (*x, *y) {
            (Expr::Kind(_, _), Expr::Kind(_, _)) => {
                lemma_ordered_pair_unsigned(value);
            },
            (Expr::Kind(_, _), Expr::Braket(_, _)) => {
                lemma_canonical_unsigned(*y);
                match canonical(*y) {
                    Expr::Negative(inner) => {
                        lemma_ordered_pair_unsigned(*inner);
                        let result = Expr::Braket(Box::new(ordered_pair(*inner)), x);
                        assert(result.unsigned());
                    },
                    inner => {
                        let under = Expr::Braket(Box::new(inner), x);
                        assert(under.unsigned());
                        assert(Expr::Negative(Box::new(under)).unsigned());
                    },
                }
            },
            (Expr::Braket(_, _), Expr::Kind(_, _)) => {
                lemma_canonical_unsigned(*x);
                match canonical(*x) {
                    Expr::Negative(inner) => {
                        lemma_ordered_pair_unsigned(*inner);
                        let under = Expr::Braket(Box::new(ordered_pair(*inner)), y);
                        assert(under.unsigned());
                        assert(Expr::Negative(Box::new(under)).unsigned());
                    },
                    inner => {
                        let result = Expr::Braket(Box::new(inner), y);
                        assert(result.unsigned());
                    },
                }
            },
            _ => {},
        },
        _ => {},
    }
}

/// Applies the pair rule to `value`.
fn order_pair(value: Value) -> (res: Value)
    ensures
        res@ == ordered_pair(value@),
{
    proof {
        reveal_with_fuel(Value::expr, 3);
    }
    match value {
        Value::Braket(a, b) => match (a.kind_index(), b.kind_index()) {
            (Some(index_a), Some(index_b)) => if index_a > index_b {
                Value::Braket(a, b)
            } else {
                Value::Negative(Box::new(Value::Braket(b, a)))
            },
            _ => Value::Braket(a, b),
        },
        other => other,
    }
}

/// Brings `value` to its canonical form.
pub fn standerdize(value: Value) -> (res: Value)
    ensures
        res@ == canonical(value@),
        value@.unsigned() ==> res@.unsigned(),
    decreases value,
{
    proof {
        reveal_with_fuel(Value::expr, 3);
        if value@.unsigned() {
            lemma_canonical_unsigned(value@);
        }
    }
    match value {
        Value::Braket(a, b) => {
            if a.is_kind() && b.is_kind() {
                order_pair(Value::Braket(a, b))
            } else if a.is_kind() && b.is_braket() {
                match standerdize(*b) {
                    Value::Negative(inner) => Value::Braket(Box::new(order_pair(*inner)), a),
                    inner => Value::Negative(Box::new(Value::Braket(Box::new(inner), a))),
                }
            } else if a.is_braket() && b.is_kind() {
                match standerdize(*a) {
                    Value::Negative(inner) => Value::Negative(
                        Box::new(Value::Braket(Box::new(order_pair(*inner)), b)),
                    ),
                    inner => Value::Braket(Box::new(inner), b),
                }
            } else {
                Value::Braket(a, b)
            }
        },
        other => other,
    }
}

} // verus!
