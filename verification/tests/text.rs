use bracket_algebra::error::Error;
use bracket_algebra::parser::AST;
use bracket_algebra::search::{chain_start, chain_step};
use bracket_algebra::value::{brak, Value, E, F, H};
use bracket_algebra::{make, n_f, Scope};

fn add(a: Value, b: Value) -> Value {
    Value::Add(Box::new(a), Box::new(b))
}

fn neg(a: Value) -> Value {
    Value::Negative(Box::new(a))
}

fn mul(a: Value, b: Value) -> Value {
    Value::Mul(Box::new(a), Box::new(b))
}

#[test]
fn values_are_written_as_text() {
    assert_eq!(Value::Number(0).to_string(), "0");
    assert_eq!(Value::Number(1203).to_string(), "1203");
    assert_eq!(Value::Number(-45).to_string(), "-45");
    assert_eq!(Value::Number(i32::MAX).to_string(), "2147483647");
    assert_eq!(Value::Number(i32::MIN).to_string(), "-2147483648");
    assert_eq!(E(10).to_string(), "E(10)");
    assert_eq!(Value::Kind("Name".to_string(), -3).to_string(), "Name(-3)");
    assert_eq!(brak(E(1), F(2)).to_string(), "[E(1), F(2)]");
    assert_eq!(neg(H(3)).to_string(), "-H(3)");
    assert_eq!(
        add(mul(Value::Number(2), brak(E(2), E(1))), neg(H(1))).to_string(),
        "2 * [E(2), E(1)] + -H(1)"
    );
}

#[test]
fn make_reads_rewrites_and_collects() {
    let none: Vec<(AST, AST)> = vec![];
    let mut scope = Scope::new();
    scope.set("x", brak(E(1), E(2)));
    scope.set("n", Value::Number(3));
    assert_eq!(
        make("x + x", &none, &scope, 8),
        Ok(neg(mul(Value::Number(2), brak(E(2), E(1)))))
    );
    assert_eq!(
        make("[x, E(n)] - 2 * 3 * H(n)", &none, &scope, 8),
        Ok(add(
            neg(brak(brak(E(2), E(1)), E(3))),
            neg(mul(Value::Number(2), mul(Value::Number(3), H(3)))),
        ))
    );
    assert_eq!(
        make("y", &none, &scope, 8),
        Err(Error::UnboundVariable("y".to_string()))
    );
    assert_eq!(make("]", &none, &scope, 8), Err(Error::InvalidExpression));
}

#[test]
fn chain_without_rules() {
    let none: Vec<(AST, AST)> = vec![];
    let chain = chain_start(1, &none, 8).unwrap();
    assert_eq!(chain.nx, neg(brak(E(2), E(1))));
    assert_eq!(chain.nx_f, neg(brak(brak(E(2), E(1)), F(1))));
    assert_eq!(chain.nx_h, neg(brak(brak(E(2), E(1)), H(1))));
    assert_eq!(n_f(2, 1, &none, 8), Ok(neg(brak(brak(E(2), E(1)), F(1)))));
    assert_eq!(n_f(0, 1, &none, 8), Ok(neg(brak(brak(E(2), E(1)), F(1)))));

    let next = chain_step(chain, 2, 1, &none, 8).unwrap();
    assert_eq!(next.nx, brak(neg(brak(E(2), E(1))), E(3)));
    assert_eq!(
        next.nx_f,
        brak(neg(brak(brak(E(2), E(1)), F(1))), E(3))
    );
    assert_eq!(n_f(3, 1, &none, 8), Ok(next.nx_f));
}

#[test]
fn chain_with_a_rule_that_is_missing_a_name() {
    let rules = vec![(
        AST::Kind("F".to_string(), "a".to_string()),
        AST::Named("missing".to_string()),
    )];
    assert_eq!(
        n_f(5, 1, &rules, 8),
        Err(Error::UnboundVariable("missing".to_string()))
    );
}
