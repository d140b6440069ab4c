use bracket_algebra::error::Error;
use bracket_algebra::parser::{load, parse, AST};
use bracket_algebra::value::Value;
use bracket_algebra::{make, str_build, Scope};

fn num(n: i32) -> AST {
    AST::Value(Value::Number(n))
}

fn named(name: &str) -> AST {
    AST::Named(name.to_string())
}

#[test]
fn sum_of_product_leans_right() {
    let ast = parse("1 + 2 * 3").unwrap();
    assert_eq!(
        ast,
        AST::Add(Box::new(num(1)), Box::new(AST::Mul(Box::new(num(2)), Box::new(num(3)))))
    );
    // A product of two literals folds; a sum keeps its two sides.
    let value = make("1 + 2 * 3", &vec![], &Scope::new(), 8).unwrap();
    assert_eq!(
        value,
        Value::Add(Box::new(Value::Number(1)), Box::new(Value::Number(6)))
    );
}

#[test]
fn generators_and_pattern_variables() {
    assert_eq!(
        parse("E(12)").unwrap(),
        AST::Value(Value::Kind("E".to_string(), 12))
    );
    assert_eq!(
        parse("E(a)").unwrap(),
        AST::Kind("E".to_string(), "a".to_string())
    );
    assert_eq!(parse("nx").unwrap(), named("nx"));
    assert_eq!(parse("E(1"), Err(Error::InvalidExpression));
    assert_eq!(parse("E(a"), Err(Error::InvalidExpression));
    assert_eq!(parse("E(+)").unwrap(), named("E"));
}

#[test]
fn brackets_negation_and_difference() {
    assert_eq!(
        parse("[a, b]").unwrap(),
        AST::Braket(Box::new(named("a")), Box::new(named("b")))
    );
    assert_eq!(parse("-a").unwrap(), AST::Negative(Box::new(named("a"))));
    assert_eq!(
        parse("a - b").unwrap(),
        AST::Add(Box::new(named("a")), Box::new(AST::Negative(Box::new(named("b")))))
    );
    assert_eq!(parse("(a)").unwrap(), named("a"));
    assert_eq!(
        parse("C(1, n)").unwrap(),
        AST::C(Box::new(num(1)), Box::new(named("n")))
    );
    assert_eq!(
        parse("C(a)").unwrap(),
        AST::Kind("C".to_string(), "a".to_string())
    );
}

#[test]
fn text_that_is_no_expression() {
    assert_eq!(parse(""), Err(Error::InvalidExpression));
    assert_eq!(parse(" 1"), Err(Error::InvalidExpression));
    assert_eq!(parse("1 +"), Err(Error::InvalidExpression));
    assert_eq!(parse("[a b]"), Err(Error::InvalidExpression));
    assert_eq!(parse("99999999999"), Err(Error::InvalidExpression));
    assert_eq!(parse("2147483647").unwrap(), num(2147483647));
    assert_eq!(parse("2147483648"), Err(Error::InvalidExpression));
}

#[test]
fn what_follows_an_expression_is_not_read() {
    assert_eq!(parse("a ]").unwrap(), named("a"));
    assert_eq!(parse("1 2").unwrap(), num(1));
}

#[test]
fn rules_are_read_line_by_line() {
    let rules = load("[E(a), E(a)] = 0\n\n  [E(a), F(b)] = H(a) \r\n").unwrap();
    assert_eq!(rules.len(), 2);
    assert_eq!(
        rules[0].0,
        AST::Braket(
            Box::new(AST::Kind("E".to_string(), "a".to_string())),
            Box::new(AST::Kind("E".to_string(), "a".to_string())),
        )
    );
    assert_eq!(rules[0].1, num(0));
    assert_eq!(rules[1].1, AST::Kind("H".to_string(), "a".to_string()));
    assert_eq!(load("").unwrap().len(), 0);
}

#[test]
fn rule_lines_need_exactly_one_equal_sign() {
    assert_eq!(load("a b"), Err(Error::InvalidRuleLine));
    assert_eq!(load("a = b = c"), Err(Error::InvalidRuleLine));
    assert_eq!(load("a = "), Err(Error::InvalidExpression));
    assert_eq!(load("a = b\n= c"), Err(Error::InvalidExpression));
}

#[test]
fn source_is_built_without_bindings() {
    assert_eq!(
        str_build("[E(1), E(2)]").unwrap(),
        Value::Braket(
            Box::new(Value::Kind("E".to_string(), 1)),
            Box::new(Value::Kind("E".to_string(), 2)),
        )
    );
    assert_eq!(str_build("x"), Err(Error::UnboundVariable("x".to_string())));
    assert_eq!(str_build("+"), Err(Error::InvalidExpression));
}
