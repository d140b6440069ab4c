//! From source text to collected values, and the chains of brackets that the
//! search for a vanishing expression walks along.

use vstd::prelude::*;
use crate::collect::{collected, is_lots_of_es_zero};
use crate::error::{Error, Failure};
use crate::eval::{agrees, ast_build, evaluate};
use crate::parser::{parse, parsed, rules_of, rules_unsigned, Syntax, AST};
use crate::rewrite::{rewrite, simplify};
use crate::scope::{env_unsigned, Env, Scope};
use crate::value::{brak, Expr, Value, E};

verus! {

/// The value that a source text writes, with no name bound.
pub open spec fn built(src: Seq<char>) -> Result<Expr, Failure> {
    match parsed(src) {
        Some(syntax) => evaluate(syntax, Map::empty()),
        None => Err(Failure::InvalidExpression),
    }
}

/// The value that a source text writes in `env`, rewritten by `rules` and then
/// collected. The first step that fails makes the failure.
pub open spec fn made(src: Seq<char>, rules: Seq<(Syntax, Syntax)>, env: Env, limit: nat) -> Result<
    Expr,
    Failure,
> {
    match parsed(src) {
        Some(syntax) => match evaluate(syntax, env) {
            Ok(value) => match rewrite(value, rules, limit) {
                Ok(normal) => collected(normal),
                Err(e) => Err(e),
            },
            Err(e) => Err(e),
        },
        None => Err(Failure::InvalidExpression),
    }
}

/// Reads and evaluates `str`, with no name bound.
pub fn str_build(str: &str) -> (res: Result<Value, Error>)
    ensures
        agrees(res, built(str@)),
        res matches Ok(value) ==> value@.unsigned(),
{
    match parse(str) {
        Ok(ast) => ast_build(&ast, &Scope::new()),
        Err(e) => Err(e),
    }
}

/// Reads `src`, evaluates it in `scope`, rewrites the value by `patterns`, with
/// rule applications nested at most `limit` deep, and collects its terms.
pub fn make(src: &str, patterns: &Vec<(AST, AST)>, scope: &Scope, limit: usize) -> (res: Result<
    Value,
    Error,
>)
    ensures
        agrees(res, made(src@, rules_of(patterns@), scope@, limit as nat)),
        rules_unsigned(rules_of(patterns@)) && env_unsigned(scope@) ==> (res matches Ok(value)
            ==> value@.unsigned()),
{
    match parse(src) {
        Ok(ast) => match ast_build(&ast, scope) {
            Ok(value) => match simplify(value, patterns, limit) {
                Ok(normal) => is_lots_of_es_zero(normal),
                Err(e) => Err(e),
            },
            Err(e) => Err(e),
        },
        Err(e) => Err(e),
    }
}

/// The mathematical view of a [`Chain`].
pub struct ChainState {
    pub nx: Expr,
    pub nx_f: Expr,
    pub nx_h: Expr,
}

/// A chain of brackets `[[E(1), E(2)], E(..)] ..`, with its brackets with
/// `F(b)` and with `H(b)`, both rewritten and collected.
pub struct Chain {
    pub nx: Value,
    pub nx_f: Value,
    pub nx_h: Value,
}

impl View for Chain {
    type V = ChainState;

    open spec fn view(&self) -> ChainState {
        ChainState { nx: self.nx@, nx_f: self.nx_f@, nx_h: self.nx_h@ }
    }
}

/// The index of the generator that step `k` appends: the remainder of `k` by
/// 3, which has the sign of `k`, and one more.
pub open spec fn appended(k: int) -> int {
    if k >= 0 {
        k % 3 + 1
    } else {
        1 - (-k) % 3
    }
}

/// The names that the sources of a step refer to.
pub open spec fn chain_env(state: ChainState, k: int, b: int) -> Env {
    Map::<Seq<char>, Expr>::empty().insert("b"@, Expr::Number(b)).insert(
        "n"@,
        Expr::Number(appended(k)),
    ).insert("nx"@, state.nx).insert("nxf"@, state.nx_f).insert("nxh"@, state.nx_h)
}

/// The chain of two generators.
pub open spec fn chain_started(b: int, rules: Seq<(Syntax, Syntax)>, limit: nat) -> Result<
    ChainState,
    Failure,
> {
    let env = Map::<Seq<char>, Expr>::empty().insert("b"@, Expr::Number(b));
    match made("[E(1), E(2)]"@, rules, env, limit) {
        Ok(nx) => match made("[[E(1), E(2)], F(b)]"@, rules, env, limit) {
            Ok(nx_f) => match made("[[E(1), E(2)], H(b)]"@, rules, env, limit) {
                Ok(nx_h) => Ok(ChainState { nx, nx_f, nx_h }),
                Err(e) => Err(e),
            },
            Err(e) => Err(e),
        },
        Err(e) => Err(e),
    }
}

/// Whether step `k` subtracts the bracket with `H(b)` from the bracket with
/// `F(b)`: it does where it appends `E(b)`.
pub open spec fn subtracts(k: int, b: int) -> bool {
    appended(k) == b
}

/// The chain after step `k`: one generator longer.
pub open spec fn chain_stepped(
    state: ChainState,
    k: int,
    b: int,
    rules: Seq<(Syntax, Syntax)>,
    limit: nat,
) -> Result<ChainState, Failure> {
    let env = chain_env(state, k, b);
    let f = if subtracts(k, b) {
        made("[nxf, E(n)] - nxh"@, rules, env, limit)
    } else {
        made("[nxf, E(n)]"@, rules, env, limit)
    };
    match f {
        Ok(nx_f) => match made("[nxh, E(n)] - C(b, n) * [nx, E(n)]"@, rules, env, limit) {
            Ok(nx_h) => Ok(
                ChainState {
                    nx: Expr::Braket(
                        Box::new(state.nx),
                        Box::new(Expr::Kind("E"@, appended(k))),
                    ),
                    nx_f,
                    nx_h,
                },
            ),
            Err(e) => Err(e),
        },
        Err(e) => Err(e),
    }
}

/// The chain before step `upto`: started, and stepped with 2, 3, and so on.
pub open spec fn chain_at(upto: int, b: int, rules: Seq<(Syntax, Syntax)>, limit: nat) -> Result<
    ChainState,
    Failure,
>
    decreases upto,
{
    if upto <= 2 {
        chain_started(b, rules, limit)
    } else {
        match chain_at(upto - 1, b, rules, limit) {
            Ok(state) => chain_stepped(state, upto - 1, b, rules, limit),
            Err(e) => Err(e),
        }
    }
}

/// Whether a chain, or the failure to make it, is what the model gives.
pub open spec fn chain_agrees(outcome: Result<Chain, Error>, model: Result<ChainState, Failure>) -> bool {
    match outcome {
        Ok(chain) => model == Ok::<ChainState, Failure>(chain@),
        Err(e) => model == Err::<ChainState, Failure>(e@),
    }
}

/// Starts a chain: `[E(1), E(2)]`, with its brackets with `F(b)` and `H(b)`.
pub fn chain_start(b: i32, patterns: &Vec<(AST, AST)>, limit: usize) -> (res: Result<Chain, Error>)
    ensures
        chain_agrees(res, chain_started(b as int, rules_of(patterns@), limit as nat)),
{
    let mut scope = Scope::new();
    scope.set("b", Value::Number(b));
    let nx = match make("[E(1), E(2)]", patterns, &scope, limit) {
        Ok(value) => value,
        Err(e) => {
            return Err(e);
        },
    };
    let nx_f = match make("[[E(1), E(2)], F(b)]", patterns, &scope, limit) {
        Ok(value) => value,
        Err(e) => {
            return Err(e);
        },
    };
    let nx_h = match make("[[E(1), E(2)], H(b)]", patterns, &scope, limit) {
        Ok(value) => value,
        Err(e) => {
            return Err(e);
        },
    };
    Ok(Chain { nx, nx_f, nx_h })
}

/// Makes step `k` on a chain.
pub fn chain_step(chain: Chain, k: i32, b: i32, patterns: &Vec<(AST, AST)>, limit: usize) -> (res:
    Result<Chain, Error>)
    ensures
        chain_agrees(res, chain_stepped(chain@, k as int, b as int, rules_of(patterns@), limit as nat)),
{
    let Chain { nx, nx_f, nx_h } = chain;
    let mut scope = Scope::new();
    scope.set("b", Value::Number(b));
    scope.set("n", Value::Number(k % 3 + 1));
    scope.set("nx", nx.clone());
    scope.set("nxf", nx_f);
    scope.set("nxh", nx_h);
    let nx = brak(nx, E(k % 3 + 1));
    let nx_f = if k % 3 + 1 == b {
        make("[nxf, E(n)] - nxh", patterns, &scope, limit)
    } else {
        make("[nxf, E(n)]", patterns, &scope, limit)
    };
    let nx_f = match nx_f {
        Ok(value) => value,
        Err(e) => {
            return Err(e);
        },
    };
    let nx_h = match make("[nxh, E(n)] - C(b, n) * [nx, E(n)]", patterns, &scope, limit) {
        Ok(value) => value,
        Err(e) => {
            return Err(e);
        },
    };
    Ok(Chain { nx, nx_f, nx_h })
}

/// The bracket with `F(b)` of the chain of `n` generators, rewritten by
/// `patterns` and collected.
pub fn n_f(n: i32, b: i32, patterns: &Vec<(AST, AST)>, limit: usize) -> (res: Result<Value, Error>)
    ensures
        match res {
            Ok(value) => chain_at(n as int, b as int, rules_of(patterns@), limit as nat) matches Ok(state)
                && state.nx_f == value@,
            Err(e) => chain_at(n as int, b as int, rules_of(patterns@), limit as nat) == Err::<
                ChainState,
                Failure,
            >(e@),
        },
{
    let mut chain = match chain_start(b, patterns, limit) {
        Ok(chain) => chain,
        Err(e) => {
            proof {
                if n > 2 {
                    lemma_chain_fails(2, n as int, b as int, rules_of(patterns@), limit as nat);
                }
            }
            return Err(e);
        },
    };
    let mut k: i32 = 2;
    while k < n
        invariant
            2 <= k,
            k <= n || k == 2,
            chain_at(k as int, b as int, rules_of(patterns@), limit as nat) == Ok::<ChainState, Failure>(
                chain@,
            ),
        decreases n - k,
    {
        chain = match chain_step(chain, k, b, patterns, limit) {
            Ok(next) => next,
            Err(e) => {
                proof {
                    lemma_chain_fails(k + 1, n as int, b as int, rules_of(patterns@), limit as nat);
                }
                return Err(e);
            },
        };
        k += 1;
    }
    assert(chain_at(n as int, b as int, rules_of(patterns@), limit as nat) == chain_at(
        k as int,
        b as int,
        rules_of(patterns@),
        limit as nat,
    ));
    Ok(chain.nx_f)
}

/// A chain that cannot be made up to a step cannot be made beyond it.
proof fn lemma_chain_fails(
    failed: int,
    upto: int,
    b: int,
    rules: Seq<(Syntax, Syntax)>,
    limit: nat,
)
    requires
        2 <= failed <= upto,
        chain_at(failed, b, rules, limit) is Err,
    ensures
        chain_at(upto, b, rules, limit) == chain_at(failed, b, rules, limit),
    decreases upto - failed,
{
    if failed < upto {
        lemma_chain_fails(failed, upto - 1, b, rules, limit);
    }
}

} // verus!
