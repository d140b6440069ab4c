use bracket_algebra::canon::standerdize;
use bracket_algebra::collect::is_lots_of_es_zero;
use bracket_algebra::error::Error;
use bracket_algebra::eval::{ast_build, ast_number, c};
use bracket_algebra::matcher::ast_match;
use bracket_algebra::parser::{parse, AST};
use bracket_algebra::rewrite::{ast_match_and_build, simplify};
use bracket_algebra::scope::Scope;
use bracket_algebra::value::{brak, number, Value, E, F, H};

fn named(name: &str) -> AST {
    AST::Named(name.to_string())
}

fn kind(name: &str, index: &str) -> AST {
    AST::Kind(name.to_string(), index.to_string())
}

fn lit(value: Value) -> AST {
    AST::Value(value)
}

fn add(a: Value, b: Value) -> Value {
    Value::Add(Box::new(a), Box::new(b))
}

fn neg(a: Value) -> Value {
    Value::Negative(Box::new(a))
}

fn mul(a: Value, b: Value) -> Value {
    Value::Mul(Box::new(a), Box::new(b))
}

fn rule(pattern: &str, replacement: &str) -> (AST, AST) {
    (parse(pattern).unwrap(), parse(replacement).unwrap())
}

#[test]
fn constructors_build_what_they_name() {
    assert_eq!(Value::zero(), Value::Number(0));
    assert_eq!(Value::one(), Value::Number(1));
    assert_eq!(E(3), Value::Kind("E".to_string(), 3));
    assert_eq!(F(2), Value::Kind("F".to_string(), 2));
    assert_eq!(H(1), Value::Kind("H".to_string(), 1));
    assert_eq!(
        brak(E(1), F(2)),
        Value::Braket(Box::new(E(1)), Box::new(F(2)))
    );
    assert_eq!(number(7), Value::Number(7));
    assert_eq!(number(0), Value::Number(0));
    assert_eq!(number(-7), neg(Value::Number(7)));
    assert_eq!(number(-i32::MAX), neg(Value::Number(i32::MAX)));
}

#[test]
fn literals_read_through_signs() {
    assert_eq!(Value::Number(5).into_number(), Some(5));
    assert_eq!(neg(Value::Number(5)).into_number(), Some(-5));
    assert_eq!(neg(neg(Value::Number(5))).into_number(), Some(5));
    assert_eq!(E(1).into_number(), None);
    assert_eq!(neg(E(1)).into_number(), None);
    assert_eq!(add(Value::Number(1), Value::Number(2)).into_number(), None);
    assert_eq!(Value::Number(i32::MIN).into_number(), Some(i32::MIN));
    assert_eq!(neg(Value::Number(i32::MIN)).into_number(), None);
    assert_eq!(neg(neg(Value::Number(i32::MIN))).into_number(), Some(i32::MIN));
}

#[test]
fn values_compare_by_structure() {
    assert_eq!(brak(E(1), E(2)), brak(E(1), E(2)));
    assert_ne!(brak(E(1), E(2)), brak(E(2), E(1)));
    assert_ne!(E(1), F(1));
    assert_ne!(E(1), E(2));
    assert_ne!(neg(E(1)), E(1));
    assert_ne!(add(E(1), E(2)), mul(E(1), E(2)));
    assert_eq!(brak(E(1), neg(F(2))).clone(), brak(E(1), neg(F(2))));
}

#[test]
fn scope_binds_and_rebinds() {
    let mut scope = Scope::new();
    assert_eq!(scope.get("x"), None);
    scope.set("x", Value::Number(1));
    scope.set("y", E(2));
    assert_eq!(scope.get("x"), Some(Value::Number(1)));
    assert_eq!(scope.get("y"), Some(E(2)));
    scope.set("x", Value::Number(3));
    assert_eq!(scope.get("x"), Some(Value::Number(3)));
    assert_eq!(scope.get("y"), Some(E(2)));
    assert_eq!(scope.get_number("x"), Ok(3));
    assert_eq!(scope.get_number("y"), Err(Error::TypeMismatch));
    assert_eq!(
        scope.get_number("z"),
        Err(Error::UnboundVariable("z".to_string()))
    );
}

#[test]
fn structure_constants() {
    let table = [[2, -1, -1], [-1, 2, -2], [-1, -1, 2]];
    for x in 0..3 {
        for y in 0..3 {
            assert_eq!(c(x, y), table[x as usize][y as usize]);
        }
    }
}

#[test]
fn table_lookup_gives_structure_constants() {
    let scope = Scope::new();
    let lookup = |row: i32, column: i32| {
        AST::C(
            Box::new(lit(Value::Number(row))),
            Box::new(lit(Value::Number(column))),
        )
    };
    assert_eq!(ast_build(&lookup(1, 1), &scope), Ok(Value::Number(2)));
    assert_eq!(ast_build(&lookup(2, 3), &scope), Ok(neg(Value::Number(2))));
    assert_eq!(ast_build(&lookup(3, 2), &scope), Ok(neg(Value::Number(1))));
    assert_eq!(ast_build(&lookup(3, 3), &scope), Ok(Value::Number(2)));
    assert_eq!(ast_build(&lookup(0, 1), &scope), Err(Error::TableIndexOutOfRange));
    assert_eq!(ast_build(&lookup(1, 4), &scope), Err(Error::TableIndexOutOfRange));
    assert_eq!(ast_build(&lookup(-1, 1), &scope), Err(Error::TableIndexOutOfRange));
    let not_a_number = AST::C(Box::new(lit(E(1))), Box::new(lit(Value::Number(1))));
    assert_eq!(ast_build(&not_a_number, &scope), Err(Error::TableIndexOutOfRange));
    assert_eq!(ast_number(&lit(Value::Number(2)), &scope), Ok(2));
    assert_eq!(
        ast_number(&named("n"), &scope),
        Err(Error::UnboundVariable("n".to_string()))
    );
}

#[test]
fn evaluation_resolves_names() {
    let mut scope = Scope::new();
    scope.set("a", Value::Number(2));
    scope.set("x", brak(E(1), E(2)));
    assert_eq!(ast_build(&named("x"), &scope), Ok(brak(E(1), E(2))));
    assert_eq!(ast_build(&kind("F", "a"), &scope), Ok(F(2)));
    assert_eq!(
        ast_build(&parse("[x, E(a)] - 2 * x").unwrap(), &scope),
        Ok(add(
            brak(brak(E(1), E(2)), E(2)),
            neg(mul(Value::Number(2), brak(E(1), E(2)))),
        ))
    );
    assert_eq!(
        ast_build(&named("y"), &scope),
        Err(Error::UnboundVariable("y".to_string()))
    );
    assert_eq!(
        ast_build(&kind("F", "b"), &scope),
        Err(Error::UnboundVariable("b".to_string()))
    );
    assert_eq!(ast_build(&kind("F", "x"), &scope), Err(Error::TypeMismatch));
    // The left side fails first.
    assert_eq!(
        ast_build(&parse("[p, q]").unwrap(), &scope),
        Err(Error::UnboundVariable("p".to_string()))
    );
}

#[test]
fn match_binds_a_name_consistently() {
    let pattern = AST::Add(Box::new(named("x")), Box::new(named("x")));
    let mut scope = Scope::new();
    let same = add(Value::Number(3), Value::Number(3));
    assert_eq!(ast_match(&pattern, &same, &mut scope), Ok(true));
    assert_eq!(scope.get("x"), Some(Value::Number(3)));

    let mut scope = Scope::new();
    let different = add(Value::Number(3), Value::Number(4));
    assert_eq!(ast_match(&pattern, &different, &mut scope), Ok(false));
}

#[test]
fn match_follows_the_shape_of_the_pattern() {
    let mut scope = Scope::new();
    assert_eq!(ast_match(&kind("E", "a"), &E(4), &mut scope), Ok(true));
    assert_eq!(scope.get("a"), Some(Value::Number(4)));
    assert_eq!(ast_match(&kind("E", "a"), &E(5), &mut scope), Ok(false));
    assert_eq!(ast_match(&kind("E", "a"), &E(4), &mut scope), Ok(true));

    let mut scope = Scope::new();
    assert_eq!(ast_match(&kind("E", "a"), &F(4), &mut scope), Ok(false));
    assert_eq!(ast_match(&kind("E", "a"), &Value::Number(4), &mut scope), Ok(false));
    assert_eq!(scope.get("a"), None);

    assert_eq!(ast_match(&lit(E(1)), &E(1), &mut scope), Ok(true));
    assert_eq!(ast_match(&lit(E(1)), &E(2), &mut scope), Ok(false));

    let negative = AST::Negative(Box::new(named("x")));
    assert_eq!(ast_match(&negative, &neg(E(1)), &mut scope), Ok(true));
    assert_eq!(scope.get("x"), Some(E(1)));
    assert_eq!(ast_match(&negative, &E(1), &mut scope), Ok(false));

    let mut scope = Scope::new();
    let product = parse("a * b").unwrap();
    assert_eq!(ast_match(&product, &mul(E(1), E(2)), &mut scope), Ok(true));
    assert_eq!(ast_match(&product, &add(E(1), E(2)), &mut scope), Ok(false));
    let bracket = parse("[a, b]").unwrap();
    assert_eq!(ast_match(&bracket, &brak(E(1), E(2)), &mut scope), Ok(true));
    assert_eq!(ast_match(&bracket, &brak(E(2), E(1)), &mut scope), Ok(false));
}

#[test]
fn table_lookup_is_no_pattern() {
    let mut scope = Scope::new();
    let lookup = parse("C(1, 2)").unwrap();
    assert_eq!(
        ast_match(&lookup, &Value::Number(1), &mut scope),
        Err(Error::TablePatternForbidden)
    );
    // A lookup that the match does not reach is no failure.
    let sum = AST::Add(Box::new(named("x")), Box::new(lookup));
    assert_eq!(ast_match(&sum, &E(1), &mut scope), Ok(false));
    let rules = vec![(parse("C(1, 2)").unwrap(), parse("0").unwrap())];
    assert_eq!(simplify(neg(E(1)), &rules, 8), Err(Error::TablePatternForbidden));
}

#[test]
fn rule_for_equal_generators_rewrites_to_zero() {
    let rules = vec![rule("[E(a), E(a)]", "0")];
    let value = ast_build(&parse("[E(1), E(1)]").unwrap(), &Scope::new()).unwrap();
    assert_eq!(simplify(value, &rules, 16), Ok(Value::zero()));
    assert_eq!(simplify(brak(E(1), E(2)), &rules, 16), Ok(brak(E(1), E(2))));
}

#[test]
fn first_matching_rule_wins() {
    let rules = vec![rule("[E(a), F(b)]", "H(a)"), rule("[x, y]", "0")];
    assert_eq!(simplify(brak(E(1), F(2)), &rules, 16), Ok(H(1)));
    assert_eq!(simplify(brak(E(1), E(2)), &rules, 16), Ok(Value::zero()));
    let swapped = vec![rule("[x, y]", "0"), rule("[E(a), F(b)]", "H(a)")];
    assert_eq!(simplify(brak(E(1), F(2)), &swapped, 16), Ok(Value::zero()));
}

#[test]
fn exchanged_bracket_matches_under_a_sign() {
    let rules = vec![rule("[E(a), F(b)]", "H(a)")];
    assert_eq!(simplify(brak(F(2), E(1)), &rules, 16), Ok(neg(H(1))));
    assert_eq!(
        ast_match_and_build(brak(F(2), E(1)), &rules, 16),
        Ok(neg(H(1)))
    );
    // The exchanged attempt starts from no bindings.
    let rules = vec![rule("[x, E(a)]", "x")];
    assert_eq!(simplify(brak(E(1), F(2)), &rules, 16), Ok(neg(F(2))));
}

#[test]
fn parts_are_rewritten_before_the_node() {
    let rules = vec![rule("[E(a), F(b)]", "H(a)"), rule("[H(a), E(b)]", "E(b)")];
    let value = brak(brak(E(1), F(1)), E(2));
    assert_eq!(simplify(value, &rules, 16), Ok(E(2)));
    let sum = add(brak(E(1), F(1)), neg(brak(E(3), F(1))));
    assert_eq!(simplify(sum, &rules, 16), Ok(add(H(1), neg(H(3)))));
}

#[test]
fn products_of_literals_fold() {
    let none: Vec<(AST, AST)> = vec![];
    assert_eq!(
        simplify(mul(Value::Number(2), Value::Number(3)), &none, 4),
        Ok(Value::Number(6))
    );
    assert_eq!(
        simplify(mul(Value::Number(2), neg(Value::Number(3))), &none, 4),
        Ok(neg(Value::Number(6)))
    );
    assert_eq!(
        simplify(mul(neg(Value::Number(2)), neg(Value::Number(3))), &none, 4),
        Ok(Value::Number(6))
    );
    assert_eq!(
        simplify(mul(Value::Number(2), E(1)), &none, 4),
        Ok(mul(Value::Number(2), E(1)))
    );
    assert_eq!(
        simplify(mul(Value::Number(65536), Value::Number(32768)), &none, 4),
        Err(Error::Overflow)
    );
    assert_eq!(
        simplify(mul(Value::Number(65536), Value::Number(32767)), &none, 4),
        Ok(Value::Number(2147418112))
    );
    // The sides are rewritten first: here to literals.
    let rules = vec![rule("E(a)", "a")];
    assert_eq!(simplify(mul(E(4), E(5)), &rules, 4), Ok(Value::Number(20)));
}

#[test]
fn nesting_is_limited() {
    let forever = vec![rule("E(a)", "[E(a), E(a)]")];
    assert_eq!(simplify(E(1), &forever, 50), Err(Error::NonTerminating));
    let once = vec![rule("E(a)", "F(a)")];
    assert_eq!(simplify(E(1), &once, 0), Err(Error::NonTerminating));
    assert_eq!(simplify(E(1), &once, 1), Ok(F(1)));
    assert_eq!(simplify(F(1), &once, 0), Ok(F(1)));
    let twice = vec![rule("E(a)", "F(a)"), rule("F(a)", "H(a)")];
    assert_eq!(simplify(E(1), &twice, 1), Err(Error::NonTerminating));
    assert_eq!(simplify(E(1), &twice, 2), Ok(H(1)));
}

#[test]
fn failures_of_a_replacement_are_handed_on() {
    let rules = vec![rule("E(a)", "[E(a), y]")];
    assert_eq!(
        simplify(E(1), &rules, 8),
        Err(Error::UnboundVariable("y".to_string()))
    );
    let rules = vec![rule("[x, y]", "C(x, y)")];
    assert_eq!(
        simplify(brak(Value::Number(1), Value::Number(2)), &rules, 8),
        Ok(neg(Value::Number(1)))
    );
    assert_eq!(
        simplify(brak(Value::Number(1), Value::Number(7)), &rules, 8),
        Err(Error::TableIndexOutOfRange)
    );
    let rules = vec![rule("[x, y]", "E(x)")];
    assert_eq!(
        simplify(brak(F(1), F(2)), &rules, 8),
        Err(Error::TypeMismatch)
    );
}

#[test]
fn canonical_form_orders_generators() {
    assert_eq!(standerdize(brak(E(2), E(1))), brak(E(2), E(1)));
    assert_eq!(standerdize(brak(E(1), E(2))), neg(brak(E(2), E(1))));
    assert_eq!(standerdize(brak(F(1), E(2))), neg(brak(E(2), F(1))));
    assert_eq!(standerdize(brak(E(1), F(1))), neg(brak(F(1), E(1))));
    assert_eq!(
        standerdize(brak(H(3), brak(E(1), E(2)))),
        brak(brak(E(2), E(1)), H(3))
    );
    assert_eq!(
        standerdize(brak(H(3), brak(E(2), E(1)))),
        neg(brak(brak(E(2), E(1)), H(3)))
    );
    assert_eq!(
        standerdize(brak(brak(E(1), E(2)), F(3))),
        neg(brak(brak(E(2), E(1)), F(3)))
    );
    assert_eq!(
        standerdize(brak(brak(E(2), E(1)), F(3))),
        brak(brak(E(2), E(1)), F(3))
    );
    assert_eq!(
        standerdize(brak(E(4), brak(brak(E(1), E(2)), E(3)))),
        brak(brak(brak(E(2), E(1)), E(3)), E(4))
    );
}

#[test]
fn canonical_form_leaves_other_shapes() {
    assert_eq!(standerdize(E(1)), E(1));
    assert_eq!(standerdize(Value::Number(3)), Value::Number(3));
    assert_eq!(standerdize(neg(brak(E(1), E(2)))), neg(brak(E(1), E(2))));
    assert_eq!(
        standerdize(add(brak(E(1), E(2)), E(3))),
        add(brak(E(1), E(2)), E(3))
    );
    assert_eq!(
        standerdize(brak(brak(E(1), E(2)), brak(E(3), E(4)))),
        brak(brak(E(1), E(2)), brak(E(3), E(4)))
    );
    assert_eq!(
        standerdize(brak(Value::Number(1), E(2))),
        brak(Value::Number(1), E(2))
    );
}

#[test]
fn canonical_form_is_antisymmetric_and_fixed() {
    let (a, b) = (E(1), F(2));
    assert_eq!(
        standerdize(brak(a.clone(), b.clone())),
        neg(standerdize(brak(b, a)))
    );
    let samples = vec![
        brak(E(1), E(2)),
        brak(E(1), F(1)),
        brak(H(2), brak(E(1), F(1))),
        brak(brak(E(1), F(1)), H(2)),
        brak(H(3), brak(E(1), E(2))),
        brak(brak(brak(E(1), E(2)), E(3)), E(1)),
        brak(E(4), brak(E(3), brak(E(1), E(2)))),
        neg(E(1)),
    ];
    for value in samples {
        let once = standerdize(value);
        assert_eq!(standerdize(once.clone()), once);
    }
}

#[test]
fn equal_indices_exchange_too() {
    assert_eq!(
        standerdize(brak(H(2), brak(E(1), F(1)))),
        brak(neg(brak(E(1), F(1))), H(2))
    );
    assert_eq!(
        standerdize(brak(brak(E(1), F(1)), H(2))),
        neg(brak(neg(brak(E(1), F(1))), H(2)))
    );
}

#[test]
fn collection_merges_and_vanishes() {
    let m = brak(E(2), E(1));
    assert_eq!(is_lots_of_es_zero(add(m.clone(), neg(m.clone()))), Ok(Value::zero()));
    assert_eq!(
        is_lots_of_es_zero(add(H(1), neg(H(1)))),
        Ok(Value::zero())
    );
    let sum = add(
        mul(number(2), m.clone()),
        add(mul(number(3), m.clone()), mul(number(4), H(1))),
    );
    assert_eq!(
        is_lots_of_es_zero(sum),
        Ok(add(mul(Value::Number(5), m.clone()), mul(Value::Number(4), H(1))))
    );
    let cancels = add(
        mul(number(2), m.clone()),
        add(mul(number(-2), m.clone()), mul(number(4), H(1))),
    );
    assert_eq!(is_lots_of_es_zero(cancels), Ok(mul(Value::Number(4), H(1))));
    let all_zero = add(
        mul(number(2), m.clone()),
        add(mul(number(-2), m.clone()), mul(number(0), H(1))),
    );
    assert_eq!(is_lots_of_es_zero(all_zero), Ok(Value::zero()));
}

#[test]
fn collection_writes_coefficients() {
    assert_eq!(is_lots_of_es_zero(H(1)), Ok(H(1)));
    assert_eq!(is_lots_of_es_zero(neg(H(1))), Ok(neg(H(1))));
    assert_eq!(
        is_lots_of_es_zero(add(H(1), H(1))),
        Ok(mul(Value::Number(2), H(1)))
    );
    assert_eq!(
        is_lots_of_es_zero(add(neg(H(1)), neg(mul(Value::Number(2), H(1))))),
        Ok(neg(mul(Value::Number(3), H(1))))
    );
    assert_eq!(
        is_lots_of_es_zero(mul(neg(Value::Number(3)), H(1))),
        Ok(neg(mul(Value::Number(3), H(1))))
    );
    // A sign from the canonical form goes to the coefficient.
    assert_eq!(
        is_lots_of_es_zero(add(brak(E(1), E(2)), brak(E(2), E(1)))),
        Ok(Value::zero())
    );
    assert_eq!(
        is_lots_of_es_zero(mul(Value::Number(3), brak(E(1), E(2)))),
        Ok(neg(mul(Value::Number(3), brak(E(2), E(1)))))
    );
    // A product without a literal on the left is a monomial by itself.
    assert_eq!(
        is_lots_of_es_zero(add(mul(E(1), E(2)), mul(E(1), E(2)))),
        Ok(mul(Value::Number(2), mul(E(1), E(2))))
    );
}

#[test]
fn collection_keeps_the_order_of_first_sight() {
    let sum = add(H(1), add(H(2), add(H(3), add(H(2), H(1)))));
    assert_eq!(
        is_lots_of_es_zero(sum),
        Ok(add(
            mul(Value::Number(2), H(1)),
            add(mul(Value::Number(2), H(2)), H(3)),
        ))
    );
    // Only a sum that leans to the right is walked.
    let left = add(add(H(1), H(1)), H(1));
    assert_eq!(
        is_lots_of_es_zero(left),
        Ok(add(add(H(1), H(1)), H(1)))
    );
}

#[test]
fn collection_reports_coefficients_out_of_range() {
    let big = mul(Value::Number(i32::MAX), H(1));
    assert_eq!(
        is_lots_of_es_zero(add(big.clone(), big.clone())),
        Err(Error::Overflow)
    );
    assert_eq!(
        is_lots_of_es_zero(add(big.clone(), add(big.clone(), neg(big.clone())))),
        Ok(big.clone())
    );
    assert_eq!(
        is_lots_of_es_zero(mul(Value::Number(i32::MIN), H(1))),
        Err(Error::Overflow)
    );
}
