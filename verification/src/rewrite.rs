//! The rewriter: brings a value to normal form under an ordered list of rules.

use vstd::prelude::*;
use crate::error::{Error, Failure};
use crate::eval::{agrees, ast_build, evaluate, lemma_evaluate_unsigned};
use crate::matcher::{ast_match, lemma_unify_unsigned, unify};
use crate::parser::{rules_of, rules_unsigned, Syntax, AST};
use crate::scope::{env_unsigned, Scope};
use crate::value::{number, Expr, Value};

verus! {

/// The product of two literals, where both sides are literals: the literal of
/// the product, or `Overflow` where its magnitude is more than `i32::MAX`.
pub open spec fn fold_product(x: Expr, y: Expr) -> Option<Result<Expr, Failure>> {
    match (x.literal(), y.literal()) {
        (Some(p), Some(q)) => if -0x7fff_ffff <= p * q <= 0x7fff_ffff {
            Some(Ok(Expr::of_int(p * q)))
        } else {
            Some(Err(Failure::Overflow))
        },
        _ => None,
    }
}

/// What becomes of a replacement that was built: it is rewritten in turn, one
/// level deeper, which the limit must still allow.
pub open spec fn rewrite_built(
    built: Result<Expr, Failure>,
    rules: Seq<(Syntax, Syntax)>,
    limit: nat,
) -> Result<Expr, Failure>
    decreases limit, 0int, 0int,
{
    match built {
        Ok(value) => if limit == 0 {
            Err(Failure::NonTerminating)
        } else {
            rewrite(value, rules, (limit - 1) as nat)
        },
        Err(e) => Err(e),
    }
}

/// Scans the rules from the one at `from` on. The first rule whose pattern
/// matches `value`, or, for a bracket pattern that does not, whose pattern with
/// its sides exchanged matches, is applied: its replacement (under a sign, after
/// an exchange) is evaluated in the bindings of the match, and the result is
/// rewritten. Each attempt starts from an empty environment. Where no rule
/// applies, `value` is the result.
pub open spec fn apply_rules(
    value: Expr,
    rules: Seq<(Syntax, Syntax)>,
    from: int,
    limit: nat,
) -> Result<Expr, Failure>
    decreases limit, 1int, rules.len() - from,
{
    if from < 0 || from >= rules.len() {
        Ok(value)
    } else {
        let (pattern, replacement) = rules[from];
        match unify(pattern, value, Map::empty()) {
            Err(e) => Err(e),
            Ok((true, env)) => rewrite_built(evaluate(replacement, env), rules, limit),
            Ok((false, _)) => match pattern.flipped() {
                Some(flipped) => match unify(flipped, value, Map::empty()) {
                    Err(e) => Err(e),
                    Ok((true, env)) => rewrite_built(
                        evaluate(replacement.negated(), env),
                        rules,
                        limit,
                    ),
                    Ok((false, _)) => apply_rules(value, rules, from + 1, limit),
                },
                None => apply_rules(value, rules, from + 1, limit),
            },
        }
    }
}

/// The normal form of `value` under `rules`: the parts of a node are rewritten
/// first, from left to right, then the rules are scanned at the node, be it a
/// compound or a leaf. A product whose two sides have become literals is
/// replaced by the literal of the product, and no rule is tried on it. Where
/// rule applications nest deeper than `limit`, the result is `NonTerminating`.
pub open spec fn rewrite(value: Expr, rules: Seq<(Syntax, Syntax)>, limit: nat) -> Result<
    Expr,
    Failure,
>
    decreases limit, 2int, value.size(),
{
    match value {
        Expr::Number(_) => apply_rules(value, rules, 0, limit),
        Expr::Kind(_, _) => apply_rules(value, rules, 0, limit),
        Expr::Negative(a) => match rewrite(*a, rules, limit) {
            Ok(x) => apply_rules(Expr::Negative(Box::new(x)), rules, 0, limit),
            Err(e) => Err(e),
        },
        Expr::Add(a, b) => match rewrite(*a, rules, limit) {
            Ok(x) => match rewrite(*b, rules, limit) {
                Ok(y) => apply_rules(Expr::Add(Box::new(x), Box::new(y)), rules, 0, limit),
                Err(e) => Err(e),
            },
            Err(e) => Err(e),
        },
        Expr::Braket(a, b) => match rewrite(*a, rules, limit) {
            Ok(x) => match rewrite(*b, rules, limit) {
                Ok(y) => apply_rules(Expr::Braket(Box::new(x), Box::new(y)), rules, 0, limit),
                Err(e) => Err(e),
            },
            Err(e) => Err(e),
        },
        Expr::Mul(a, b) => match rewrite(*a, rules, limit) {
            Ok(x) => match rewrite(*b, rules, limit) {
                Ok(y) => match fold_product(x, y) {
                    Some(folded) => folded,
                    None => apply_rules(Expr::Mul(Box::new(x), Box::new(y)), rules, 0, limit),
                },
                Err(e) => Err(e),
            },
            Err(e) => Err(e),
        },
    }
}

/// What a rule gives holds nothing negative, where the value and the
/// replacements hold nothing negative.
proof fn lemma_apply_rules_unsigned(
    value: Expr,
    rules: Seq<(Syntax, Syntax)>,
    from: int,
    limit: nat,
)
    requires
        value.unsigned(),
        rules_unsigned(rules),
    ensures
        apply_rules(value, rules, from, limit) matches Ok(normal) ==> normal.unsigned(),
    decreases limit, 1int, rules.len() - from,
{
    if 0 <= from < rules.len() {
        let (pattern, replacement) = rules[from];
        let none = Map::<Seq<char>, Expr>::empty();
        assert(rules[from].1.unsigned());
        assert(env_unsigned(none));
        lemma_unify_unsigned(pattern, value, none);
        match unify(pattern, value, none) {
            Err(_) => {},
            Ok((true, env)) => {
                lemma_evaluate_unsigned(replacement, env);
                lemma_rewrite_built_unsigned(evaluate(replacement, env), rules, limit);
            },
            Ok((false, _)) => match pattern.flipped() {
                Some(flipped) => {
                    lemma_unify_unsigned(flipped, value, none);
                    match unify(flipped, value, none) {
                        Err(_) => {},
                        Ok((true, env)) => {
                            assert(replacement.negated().unsigned());
                            lemma_evaluate_unsigned(replacement.negated(), env);
                            lemma_rewrite_built_unsigned(
                                evaluate(replacement.negated(), env),
                                rules,
                                limit,
                            );
                        },
                        Ok((false, _)) => {
                            lemma_apply_rules_unsigned(value, rules, from + 1, limit);
                        },
                    }
                },
                None => {
                    lemma_apply_rules_unsigned(value, rules, from + 1, limit);
                },
            },
        }
    }
}

/// What a replacement is rewritten to holds nothing negative.
proof fn lemma_rewrite_built_unsigned(
    built: Result<Expr, Failure>,
    rules: Seq<(Syntax, Syntax)>,
    limit: nat,
)
    requires
        built matches Ok(value) ==> value.unsigned(),
        rules_unsigned(rules),
    ensures
        rewrite_built(built, rules, limit) matches Ok(normal) ==> normal.unsigned(),
    decreases limit, 0int, 0int,
{
    match built {
        Ok(value) => {
            if limit > 0 {
                lemma_rewrite_unsigned(value, rules, (limit - 1) as nat);
            }
        },
        Err(_) => {},
    }
}

/// Rewriting makes nothing negative: where neither the value nor a
/// replacement of the rules holds a negative number or index, the normal form
/// holds none.
pub proof fn lemma_rewrite_unsigned(value: Expr, rules: Seq<(Syntax, Syntax)>, limit: nat)
    requires
        value.unsigned(),
        rules_unsigned(rules),
    ensures
        rewrite(value, rules, limit) matches Ok(normal) ==> normal.unsigned(),
    decreases limit, 2int, value.size(),
{
    match value {
        Expr::Number(_) => {
            lemma_apply_rules_unsigned(value, rules, 0, limit);
        },
        Expr::Kind(_, _) => {
            lemma_apply_rules_unsigned(value, rules, 0, limit);
        },
        Expr::Negative(a) => {
            lemma_rewrite_unsigned(*a, rules, limit);
            if let Ok(x) = rewrite(*a, rules, limit) {
                lemma_apply_rules_unsigned(Expr::Negative(Box::new(x)), rules, 0, limit);
            }
        },
        Expr::Add(a, b) => {
            lemma_rewrite_unsigned(*a, rules, limit);
            lemma_rewrite_unsigned(*b, rules, limit);
            if let Ok(x) = rewrite(*a, rules, limit) {
                if let Ok(y) = rewrite(*b, rules, limit) {
                    lemma_apply_rules_unsigned(
                        Expr::Add(Box::new(x), Box::new(y)),
                        rules,
                        0,
                        limit,
                    );
                }
            }
        },
        Expr::Braket(a, b) => {
            lemma_rewrite_unsigned(*a, rules, limit);
            lemma_rewrite_unsigned(*b, rules, limit);
            if let Ok(x) = rewrite(*a, rules, limit) {
                if let Ok(y) = rewrite(*b, rules, limit) {
                    lemma_apply_rules_unsigned(
                        Expr::Braket(Box::new(x), Box::new(y)),
                        rules,
                        0,
                        limit,
                    );
                }
            }
        },
        Expr::Mul(a, b) => {
            lemma_rewrite_unsigned(*a, rules, limit);
            lemma_rewrite_unsigned(*b, rules, limit);
            if let Ok(x) = rewrite(*a, rules, limit) {
                if let Ok(y) = rewrite(*b, rules, limit) {
                    reveal_with_fuel(Expr::unsigned, 3);
                    if fold_product(x, y) is None {
                        lemma_apply_rules_unsigned(
                            Expr::Mul(Box::new(x), Box::new(y)),
                            rules,
                            0,
                            limit,
                        );
                    }
                }
            }
        },
    }
}

/// Rewrites a replacement that was built, one level deeper.
fn simplify_built(built: Value, patterns: &Vec<(AST, AST)>, limit: usize) -> (res: Result<
    Value,
    Error,
>)
    ensures
        agrees(res, rewrite_built(Ok(built@), rules_of(patterns@), limit as nat)),
    decreases limit, 0int, 0int,
{
    if limit == 0 {
        Err(Error::NonTerminating)
    } else {
        simplify(built, patterns, limit - 1)
    }
}

/// Applies the first rule of `patterns` that matches `value`, and rewrites what
/// it gives; returns `value` where none matches.
pub fn ast_match_and_build(value: Value, patterns: &Vec<(AST, AST)>, limit: usize) -> (res: Result<
    Value,
    Error,
>)
    ensures
        agrees(res, apply_rules(value@, rules_of(patterns@), 0, limit as nat)),
    decreases limit, 1int, 0int,
{
    let ghost rules = rules_of(patterns@);
    let mut i: usize = 0;
    while i < patterns.len()
        invariant
            i <= patterns@.len(),
            rules == rules_of(patterns@),
            apply_rules(value@, rules, 0, limit as nat) == apply_rules(
                value@,
                rules,
                i as int,
                limit as nat,
            ),
        decreases patterns@.len() - i,
    {
        let pattern = &patterns[i].0;
        let expresion = &patterns[i].1;
        assert(rules[i as int] == (pattern@, expresion@));
        let mut scope = Scope::new();
        match ast_match(pattern, &value, &mut scope) {
            Err(e) => {
                return Err(e);
            },
            Ok(true) => {
                return match ast_build(expresion, &scope) {
                    Ok(built) => simplify_built(built, patterns, limit),
                    Err(e) => Err(e),
                };
            },
            Ok(false) => {},
        }
        match pattern.flip() {
            Some(flipped) => {
                let mut scope = Scope::new();
                match ast_match(&flipped, &value, &mut scope) {
                    Err(e) => {
                        return Err(e);
                    },
                    Ok(true) => {
                        let negated = expresion.negate();
                        return match ast_build(&negated, &scope) {
                            Ok(built) => simplify_built(built, patterns, limit),
                            Err(e) => Err(e),
                        };
                    },
                    Ok(false) => {},
                }
            },
            None => {},
        }
        i += 1;
    }
    Ok(value)
}

/// The product of two literals, where both values are literals.
fn fold(x: &Value, y: &Value) -> (res: Option<Result<Value, Error>>)
    ensures
        match res {
            Some(folded) => fold_product(x@, y@) matches Some(model) && agrees(folded, model),
            None => fold_product(x@, y@) is None,
        },
{
    match x.signed_literal() {
        Some(p) => match y.signed_literal() {
            Some(q) => {
                assert(-0x4000_0000_0000_0000 <= p * q <= 0x4000_0000_0000_0000)
                    by (nonlinear_arith)
                    requires
                        -0x8000_0000 <= p <= 0x8000_0000,
                        -0x8000_0000 <= q <= 0x8000_0000,
                ;
                let product: i64 = p * q;
                if -0x7fff_ffff <= product && product <= 0x7fff_ffff {
                    Some(Ok(number(product as i32)))
                } else {
                    Some(Err(Error::Overflow))
                }
            },
            None => None,
        },
        None => None,
    }
}

/// Rewrites `value` to its normal form under `patterns`.
///
/// The parts of a node are rewritten first, then the rules are tried at the
/// node in their order, and what the first matching rule gives is rewritten in
/// turn. `limit` is how deep such applications may nest: beyond it the result is
/// `NonTerminating`. Failures of matching and of evaluation are handed on.
pub fn simplify(value: Value, patterns: &Vec<(AST, AST)>, limit: usize) -> (res: Result<
    Value,
    Error,
>)
    ensures
        agrees(res, rewrite(value@, rules_of(patterns@), limit as nat)),
        value@.unsigned() && rules_unsigned(rules_of(patterns@)) ==> (res matches Ok(normal)
            ==> normal@.unsigned()),
    decreases limit, 2int, value@.size(),
{
    proof {
        if value@.unsigned() && rules_unsigned(rules_of(patterns@)) {
            lemma_rewrite_unsigned(value@, rules_of(patterns@), limit as nat);
        }
    }
    match value {
        Value::Number(n) => ast_match_and_build(Value::Number(n), patterns, limit),
        Value::Kind(name, index) => ast_match_and_build(Value::Kind(name, index), patterns, limit),
        Value::Negative(a) => match simplify(*a, patterns, limit) {
            Ok(x) => ast_match_and_build(Value::Negative(Box::new(x)), patterns, limit),
            Err(e) => Err(e),
        },
        Value::Add(a, b) => match simplify(*a, patterns, limit) {
            Ok(x) => match simplify(*b, patterns, limit) {
                Ok(y) => ast_match_and_build(
                    Value::Add(Box::new(x), Box::new(y)),
                    patterns,
                    limit,
                ),
                Err(e) => Err(e),
            },
            Err(e) => Err(e),
        },
        Value::Braket(a, b) => match simplify(*a, patterns, limit) {
            Ok(x) => match simplify(*b, patterns, limit) {
                Ok(y) => ast_match_and_build(
                    Value::Braket(Box::new(x), Box::new(y)),
                    patterns,
                    limit,
                ),
                Err(e) => Err(e),
            },
            Err(e) => Err(e),
        },
        Value::Mul(a, b) => match simplify(*a, patterns, limit) {
            Ok(x) => match simplify(*b, patterns, limit) {
                Ok(y) => match fold(&x, &y) {
                    Some(folded) => folded,
                    None => ast_match_and_build(
                        Value::Mul(Box::new(x), Box::new(y)),
                        patterns,
                        limit,
                    ),
                },
                Err(e) => Err(e),
            },
            Err(e) => Err(e),
        },
    }
}

/// Rewriting is a function of the value and the rules: two calls on values that
/// stand for the same expression, with lists that stand for the same rules and
/// with the same limit, end alike, in the same value or in the same failure.
pub proof fn lemma_simplify_deterministic(
    first: Value,
    second: Value,
    first_patterns: Vec<(AST, AST)>,
    second_patterns: Vec<(AST, AST)>,
    limit: usize,
    first_outcome: Result<Value, Error>,
    second_outcome: Result<Value, Error>,
)
    requires
        first@ == second@,
        rules_of(first_patterns@) == rules_of(second_patterns@),
        call_ensures(simplify, (first, &first_patterns, limit), first_outcome),
        call_ensures(simplify, (second, &second_patterns, limit), second_outcome),
    ensures
        match (first_outcome, second_outcome) {
            (Ok(a), Ok(b)) => a@ == b@,
            (Err(a), Err(b)) => a@ == b@,
            _ => false,
        },
{
}

} // verus!
