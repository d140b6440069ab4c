//! The evaluator: from a syntax tree and an environment to a value.

use vstd::prelude::*;
use crate::error::{Error, Failure};
use crate::parser::{Syntax, AST};
use crate::scope::{env_unsigned, Env, Scope};
use crate::value::{number, Expr, Value};

verus! {

/// The structure constant in row `x` and column `y`, both counted from 0: 2 on
/// the diagonal, -2 in row 1 and column 2, and -1 elsewhere.
pub open spec fn structure_constant(x: int, y: int) -> int {
    if x == y {
        2
    } else if x == 1 && y == 2 {
        -2
    } else {
        -1
    }
}

/// The index that an operand of a table lookup gives: an integer from 1 to 3.
pub open spec fn table_index(operand: Result<Expr, Failure>) -> Result<int, Failure> {
    match operand {
        Ok(Expr::Number(n)) => if 1 <= n <= 3 {
            Ok(n)
        } else {
            Err(Failure::TableIndexOutOfRange)
        },
        Ok(_) => Err(Failure::TableIndexOutOfRange),
        Err(e) => Err(e),
    }
}

/// The value of `ast` in `env`. Operands are evaluated from left to right, and
/// the first failure is the result.
pub open spec fn evaluate(ast: Syntax, env: Env) -> Result<Expr, Failure>
    decreases ast,
{
    match ast {
        Syntax::Named(name) => if env.contains_key(name) {
            Ok(env[name])
        } else {
            Err(Failure::UnboundVariable(name))
        },
        Syntax::Value(value) => Ok(value),
        Syntax::Kind(name, index) => if env.contains_key(index) {
            match env[index] {
                Expr::Number(n) => Ok(Expr::Kind(name, n)),
                _ => Err(Failure::TypeMismatch),
            }
        } else {
            Err(Failure::UnboundVariable(index))
        },
        Syntax::Negative(a) => match evaluate(*a, env) {
            Ok(x) => Ok(Expr::Negative(Box::new(x))),
            Err(e) => Err(e),
        },
        Syntax::Braket(a, b) => match evaluate(*a, env) {
            Ok(x) => match evaluate(*b, env) {
                Ok(y) => Ok(Expr::Braket(Box::new(x), Box::new(y))),
                Err(e) => Err(e),
            },
            Err(e) => Err(e),
        },
        Syntax::Add(a, b) => match evaluate(*a, env) {
            Ok(x) => match evaluate(*b, env) {
                Ok(y) => Ok(Expr::Add(Box::new(x), Box::new(y))),
                Err(e) => Err(e),
            },
            Err(e) => Err(e),
        },
        Syntax::Mul(a, b) => match evaluate(*a, env) {
            Ok(x) => match evaluate(*b, env) {
                Ok(y) => Ok(Expr::Mul(Box::new(x), Box::new(y))),
                Err(e) => Err(e),
            },
            Err(e) => Err(e),
        },
        Syntax::C(a, b) => match table_index(evaluate(*a, env)) {
            Ok(row) => match table_index(evaluate(*b, env)) {
                Ok(column) => Ok(Expr::of_int(structure_constant(row - 1, column - 1))),
                Err(e) => Err(e),
            },
            Err(e) => Err(e),
        },
    }
}

/// Evaluation makes nothing negative: where no value in the tree and none in
/// the environment holds a negative number or index, the value holds none.
pub proof fn lemma_evaluate_unsigned(ast: Syntax, env: Env)
    requires
        ast.unsigned(),
        env_unsigned(env),
    ensures
        evaluate(ast, env) matches Ok(value) ==> value.unsigned(),
    decreases ast,
{
    reveal_with_fuel(Expr::unsigned, 3);
    match ast {
        Syntax::Negative(a) => {
            lemma_evaluate_unsigned(*a, env);
        },
        Syntax::Braket(a, b) | Syntax::Add(a, b) | Syntax::Mul(a, b) => {
            lemma_evaluate_unsigned(*a, env);
            lemma_evaluate_unsigned(*b, env);
        },
        _ => {},
    }
}

/// Whether an outcome of the engine is the one that the model gives.
pub open spec fn agrees(outcome: Result<Value, Error>, model: Result<Expr, Failure>) -> bool {
    match outcome {
        Ok(value) => model == Ok::<Expr, Failure>(value@),
        Err(e) => model == Err::<Expr, Failure>(e@),
    }
}

/// The structure constant in row `x` and column `y`, both counted from 0.
pub fn c(x: i32, y: i32) -> (res: i32)
    requires
        0 <= x < 3,
        0 <= y < 3,
    ensures
        res == structure_constant(x as int, y as int),
{
    if x == y {
        2
    } else if x == 1 && y == 2 {
        -2
    } else {
        -1
    }
}

/// The table index that `expresion` evaluates to in `scope`.
pub fn ast_number(expresion: &AST, scope: &Scope) -> (res: Result<usize, Error>)
    ensures
        match res {
            Ok(n) => table_index(evaluate(expresion@, scope@)) == Ok::<int, Failure>(n as int),
            Err(e) => table_index(evaluate(expresion@, scope@)) == Err::<int, Failure>(e@),
        },
    decreases expresion, 1int,
{
    match ast_build(expresion, scope) {
        Ok(Value::Number(n)) => if 1 <= n && n <= 3 {
            Ok(n as usize)
        } else {
            Err(Error::TableIndexOutOfRange)
        },
        Ok(_) => Err(Error::TableIndexOutOfRange),
        Err(e) => Err(e),
    }
}

/// Evaluates `expresion` in `scope`.
///
/// Fails with `UnboundVariable` where a name is not bound, with `TypeMismatch`
/// where the index of a generator is bound to anything but a number, and with
/// `TableIndexOutOfRange` where an operand of a table lookup is no integer
/// from 1 to 3.
pub fn ast_build(expresion: &AST, scope: &Scope) -> (res: Result<Value, Error>)
    ensures
        agrees(res, evaluate(expresion@, scope@)),
        expresion@.unsigned() && env_unsigned(scope@) ==> (res matches Ok(value)
            ==> value@.unsigned()),
    decreases expresion, 0int,
{
    proof {
        if expresion@.unsigned() && env_unsigned(scope@) {
            lemma_evaluate_unsigned(expresion@, scope@);
        }
    }
    match expresion {
        AST::Named(name) => match scope.get(name.as_str()) {
            Some(value) => Ok(value),
            None => Err(Error::UnboundVariable(name.clone())),
        },
        AST::Value(value) => Ok(value.clone()),
        AST::Kind(name, index) => match scope.get_number(index.as_str()) {
            Ok(n) => Ok(Value::Kind(name.clone(), n)),
            Err(e) => Err(e),
        },
        AST::Negative(a) => match ast_build(a, scope) {
            Ok(x) => Ok(Value::Negative(Box::new(x))),
            Err(e) => Err(e),
        },
        AST::Braket(a, b) => match ast_build(a, scope) {
            Ok(x) => match ast_build(b, scope) {
                Ok(y) => Ok(Value::Braket(Box::new(x), Box::new(y))),
                Err(e) => Err(e),
            },
            Err(e) => Err(e),
        },
        AST::Add(a, b) => match ast_build(a, scope) {
            Ok(x) => match ast_build(b, scope) {
                Ok(y) => Ok(Value::Add(Box::new(x), Box::new(y))),
                Err(e) => Err(e),
            },
            Err(e) => Err(e),
        },
        AST::Mul(a, b) => match ast_build(a, scope) {
            Ok(x) => match ast_build(b, scope) {
                Ok(y) => Ok(Value::Mul(Box::new(x), Box::new(y))),
                Err(e) => Err(e),
            },
            Err(e) => Err(e),
        },
        AST::C(a, b) => match ast_number(a, scope) {
            Ok(row) => match ast_number(b, scope) {
                Ok(column) => Ok(number(c((row - 1) as i32, (column - 1) as i32))),
                Err(e) => Err(e),
            },
            Err(e) => Err(e),
        },
    }
}

} // verus!
