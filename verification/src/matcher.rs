//! The matcher: unifies a pattern with a value, binding the pattern's names.

use vstd::prelude::*;
use crate::error::{Error, Failure};
use crate::parser::{Syntax, AST};
use crate::scope::{env_unsigned, Env, Scope};
use crate::value::{Expr, Value};

verus! {

/// Matching a name: a name that is not bound yet matches anything and is bound
/// to it; a bound name matches only what it is bound to.
pub open spec fn bind(name: Seq<char>, value: Expr, env: Env) -> (bool, Env) {
    if env.contains_key(name) {
        (env[name] == value, env)
    } else {
        (true, env.insert(name, value))
    }
}

/// Whether `pattern` matches `value` in `env`, and the environment that the
/// attempt leaves behind. An environment left by a failed attempt holds the
/// bindings made before the failure. A table lookup that is reached is an error.
pub open spec fn unify(pattern: Syntax, value: Expr, env: Env) -> Result<(bool, Env), Failure>
    decreases pattern,
{
    match pattern {
        Syntax::Named(name) => Ok(bind(name, value, env)),
        Syntax::Value(literal) => Ok((literal == value, env)),
        Syntax::Kind(name, index) => match value {
            Expr::Kind(value_name, value_index) => if name == value_name {
                Ok(bind(index, Expr::Number(value_index), env))
            } else {
                Ok((false, env))
            },
            _ => Ok((false, env)),
        },
        Syntax::Negative(a) => match value {
            Expr::Negative(x) => unify(*a, *x, env),
            _ => Ok((false, env)),
        },
        Syntax::Braket(a, b) => match value {
            Expr::Braket(x, y) => match unify(*a, *x, env) {
                Ok((true, bound)) => unify(*b, *y, bound),
                other => other,
            },
            _ => Ok((false, env)),
        },
        Syntax::Add(a, b) => match value {
            Expr::Add(x, y) => match unify(*a, *x, env) {
                Ok((true, bound)) => unify(*b, *y, bound),
                other => other,
            },
            _ => Ok((false, env)),
        },
        Syntax::Mul(a, b) => match value {
            Expr::Mul(x, y) => match unify(*a, *x, env) {
                Ok((true, bound)) => unify(*b, *y, bound),
                other => other,
            },
            _ => Ok((false, env)),
        },
        Syntax::C(_, _) => Err(Failure::TablePatternForbidden),
    }
}

/// Matching makes nothing negative: where neither the value nor a value that
/// the environment binds holds a negative number or index, the environment
/// that the attempt leaves behind binds none that does.
pub proof fn lemma_unify_unsigned(pattern: Syntax, value: Expr, env: Env)
    requires
        value.unsigned(),
        env_unsigned(env),
    ensures
        unify(pattern, value, env) matches Ok((_, bound)) ==> env_unsigned(bound),
    decreases pattern,
{
    match pattern {
        Syntax::Negative(a) => match value {
            Expr::Negative(x) => {
                lemma_unify_unsigned(*a, *x, env);
            },
            _ => {},
        },
        Syntax::Braket(a, b) => match value {
            Expr::Braket(x, y) => {
                lemma_unify_unsigned(*a, *x, env);
                if let Ok((true, bound)) = unify(*a, *x, env) {
                    lemma_unify_unsigned(*b, *y, bound);
                }
            },
            _ => {},
        },
        Syntax::Add(a, b) => match value {
            Expr::Add(x, y) => {
                lemma_unify_unsigned(*a, *x, env);
                if let Ok((true, bound)) = unify(*a, *x, env) {
                    lemma_unify_unsigned(*b, *y, bound);
                }
            },
            _ => {},
        },
        Syntax::Mul(a, b) => match value {
            Expr::Mul(x, y) => {
                lemma_unify_unsigned(*a, *x, env);
                if let Ok((true, bound)) = unify(*a, *x, env) {
                    lemma_unify_unsigned(*b, *y, bound);
                }
            },
            _ => {},
        },
        _ => {},
    }
}

/// A name that stands twice in a pattern must match the same value twice: the
/// pattern `x + x` matches `a + b` from no bindings exactly where `a` is `b`, and
/// then binds `x` to it.
pub proof fn lemma_repeated_name(x: Seq<char>, a: Expr, b: Expr)
    ensures
        unify(
            Syntax::Add(Box::new(Syntax::Named(x)), Box::new(Syntax::Named(x))),
            Expr::Add(Box::new(a), Box::new(b)),
            Map::empty(),
        ) == Ok::<(bool, Env), Failure>((a == b, Map::<Seq<char>, Expr>::empty().insert(x, a))),
{
    reveal_with_fuel(unify, 3);
}

/// Matches `name` against `value`.
fn bind_name(name: &String, value: Value, scope: &mut Scope) -> (res: bool)
    ensures
        (res, final(scope)@) == bind(name@, value@, old(scope)@),
{
    match scope.get(name.as_str()) {
        Some(current) => value == current,
        None => {
            scope.set(name.as_str(), value);
            true
        },
    }
}

/// Matches `pattern` against `value`, binding the names of the pattern in `scope`.
///
/// Returns whether they match. After a failed attempt `scope` holds the
/// bindings made before the failure: start each attempt from a fresh scope.
/// Fails with `TablePatternForbidden` where the attempt reaches a table lookup
/// in the pattern.
pub fn ast_match(pattern: &AST, value: &Value, scope: &mut Scope) -> (res: Result<bool, Error>)
    ensures
        match res {
            Ok(matched) => unify(pattern@, value@, old(scope)@) == Ok::<(bool, Env), Failure>(
                (matched, final(scope)@),
            ),
            Err(e) => unify(pattern@, value@, old(scope)@) == Err::<(bool, Env), Failure>(e@),
        },
        value@.unsigned() && env_unsigned(old(scope)@) ==> (res is Ok ==> env_unsigned(
            final(scope)@,
        )),
    decreases pattern,
{
    proof {
        if value@.unsigned() && env_unsigned(scope@) {
            lemma_unify_unsigned(pattern@, value@, scope@);
        }
    }
    match pattern {
        AST::Named(name) => Ok(bind_name(name, value.clone(), scope)),
        AST::Value(current) => Ok(*current == *value),
        AST::Kind(name, index) => match value {
            Value::Kind(value_name, value_index) => {
                if *name == *value_name {
                    Ok(bind_name(index, Value::Number(*value_index), scope))
                } else {
                    Ok(false)
                }
            },
            _ => Ok(false),
        },
        AST::Negative(a) => match value {
            Value::Negative(x) => ast_match(a, x, scope),
            _ => Ok(false),
        },
        AST::Braket(a, b) => match value {
            Value::Braket(x, y) => match ast_match(a, x, scope) {
                Ok(true) => ast_match(b, y, scope),
                other => other,
            },
            _ => Ok(false),
        },
        AST::Add(a, b) => match value {
            Value::Add(x, y) => match ast_match(a, x, scope) {
                Ok(true) => ast_match(b, y, scope),
                other => other,
            },
            _ => Ok(false),
        },
        AST::Mul(a, b) => match value {
            Value::Mul(x, y) => match ast_match(a, x, scope) {
                Ok(true) => ast_match(b, y, scope),
                other => other,
            },
            _ => Ok(false),
        },
        AST::C(_, _) => Err(Error::TablePatternForbidden),
    }
}

} // verus!
