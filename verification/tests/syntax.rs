use bracket_algebra::error::Error;
use bracket_algebra::parser::{
    parse_atom, parse_braket, parse_c, parse_named, parse_negative, parse_number,
    parse_number_value, parse_paren, parse_value, parse_word, Class, Parser, AST,
};
use bracket_algebra::value::Value;

fn named(name: &str) -> AST {
    AST::Named(name.to_string())
}

fn num(n: i32) -> AST {
    AST::Value(Value::Number(n))
}

fn at(src: &str, index: usize) -> Parser<'_> {
    Parser::new(src).set_index(index)
}

#[test]
fn flip_exchanges_the_sides_of_a_bracket() {
    let bracket = AST::Braket(Box::new(named("a")), Box::new(num(1)));
    assert_eq!(
        bracket.flip(),
        Some(AST::Braket(Box::new(num(1)), Box::new(named("a"))))
    );
    assert_eq!(named("a").flip(), None);
    assert_eq!(AST::Add(Box::new(named("a")), Box::new(named("b"))).flip(), None);
    assert_eq!(AST::Negative(Box::new(bracket)).flip(), None);
}

#[test]
fn negate_puts_a_tree_under_a_sign() {
    assert_eq!(named("a").negate(), AST::Negative(Box::new(named("a"))));
    assert_eq!(
        named("a").negate().negate(),
        AST::Negative(Box::new(AST::Negative(Box::new(named("a")))))
    );
}

#[test]
fn trees_compare_by_structure() {
    assert_eq!(named("a"), named("a"));
    assert_ne!(named("a"), named("b"));
    assert_ne!(named("a"), AST::Kind("a".to_string(), "a".to_string()));
    assert_ne!(
        AST::Kind("E".to_string(), "a".to_string()),
        AST::Kind("E".to_string(), "b".to_string())
    );
    assert_ne!(
        AST::C(Box::new(num(1)), Box::new(num(2))),
        AST::Braket(Box::new(num(1)), Box::new(num(2)))
    );
    let tree = AST::Mul(Box::new(num(1)), Box::new(AST::Negative(Box::new(named("x")))));
    assert_eq!(tree.clone(), tree);
}

#[test]
fn errors_compare_and_copy() {
    let unbound = Error::UnboundVariable("x".to_string());
    assert_eq!(unbound.clone(), unbound);
    assert_ne!(unbound, Error::UnboundVariable("y".to_string()));
    assert_ne!(Error::TypeMismatch, Error::Overflow);
    assert_eq!(Error::NonTerminating.clone(), Error::NonTerminating);
}

#[test]
fn classes_of_characters() {
    assert!(Class::Alphabetic.contains('a'));
    assert!(Class::Alphabetic.contains('Z'));
    assert!(!Class::Alphabetic.contains('_'));
    assert!(!Class::Alphabetic.contains('1'));
    assert!(!Class::Alphabetic.contains('é'));
    assert!(Class::Numeric.contains('0'));
    assert!(Class::Numeric.contains('9'));
    assert!(!Class::Numeric.contains('a'));
    assert!(!Class::Numeric.contains('٣'));
    assert!(Class::Exactly('+').contains('+'));
    assert!(!Class::Exactly('+').contains('-'));
    for code in 0..0x3100u32 {
        if let Some(c) = char::from_u32(code) {
            assert_eq!(Class::Whitespace.contains(c), c.is_whitespace());
        }
    }
}

#[test]
fn places_move_through_the_text() {
    let start = Parser::new("ab  c");
    assert_eq!(start.index, 0);
    assert_eq!(start.set_index(2).index, 2);
    assert_eq!(start.set_index(9).index, 5);
    assert_eq!(start.set_index(2).set_index(2).index, 4);
    assert_eq!(start.starts_with_char('a').map(|next| next.index), Some(1));
    assert_eq!(start.starts_with_char('b').map(|next| next.index), None);
    assert_eq!(
        start.starts_with(Class::Alphabetic).map(|next| next.index),
        Some(1)
    );
    assert_eq!(start.starts_with(Class::Numeric).map(|next| next.index), None);
    assert_eq!(at("ab", 2).starts_with_char('a').map(|next| next.index), None);
    assert_eq!(start.next_while(Class::Alphabetic).index, 2);
    assert_eq!(start.next_while(Class::Numeric).index, 0);
    assert_eq!(at("ab  c", 2).skip_whitespace().index, 4);
    assert_eq!(at("ab  ", 2).skip_whitespace().index, 4);
    assert_eq!(Parser::new("é\u{a0}x").set_index(1).skip_whitespace().index, 2);
}

#[test]
fn words_and_numbers() {
    let (next, word) = parse_word(Parser::new("abc1")).unwrap();
    assert_eq!((next.index, word.as_str()), (3, "abc"));
    assert!(parse_word(Parser::new("1abc")).is_none());
    assert!(parse_word(Parser::new("")).is_none());
    let (next, n) = parse_number(at("x0042y", 1)).unwrap();
    assert_eq!((next.index, n), (5, 42));
    assert!(parse_number(Parser::new("x1")).is_none());
    assert!(parse_number(Parser::new("2147483648")).is_none());
    assert_eq!(parse_number(Parser::new("2147483647")).unwrap().1, i32::MAX);
    assert_eq!(
        parse_number(Parser::new("00000000000000000007")).unwrap().1,
        7
    );
}

#[test]
fn each_form_is_read_by_its_reader() {
    let (next, ast) = parse_number_value(Parser::new("12 ")).unwrap();
    assert_eq!((next.index, ast), (2, num(12)));
    let (next, ast) = parse_named(Parser::new("E(12) +")).unwrap();
    assert_eq!((next.index, ast), (5, AST::Value(Value::Kind("E".to_string(), 12))));
    let (next, ast) = parse_named(Parser::new("E( 1)")).unwrap();
    assert_eq!((next.index, ast), (1, named("E")));
    assert!(parse_named(Parser::new("E(1 )")).is_none());
    let (next, ast) = parse_paren(Parser::new("( a ) ")).unwrap();
    assert_eq!((next.index, ast), (5, named("a")));
    assert!(parse_paren(Parser::new("(a")).is_none());
    let (next, ast) = parse_c(Parser::new("C( 1 , 2 )")).unwrap();
    assert_eq!((next.index, ast), (10, AST::C(Box::new(num(1)), Box::new(num(2)))));
    assert!(parse_c(Parser::new("C (1, 2)")).is_none());
    let (next, ast) = parse_braket(Parser::new("[a,b]  c")).unwrap();
    assert_eq!(
        (next.index, ast),
        (7, AST::Braket(Box::new(named("a")), Box::new(named("b"))))
    );
    assert!(parse_braket(Parser::new("[a,b")).is_none());
    let (next, ast) = parse_negative(Parser::new("- a")).unwrap();
    assert_eq!((next.index, ast), (3, AST::Negative(Box::new(named("a")))));
    assert!(parse_negative(Parser::new("a")).is_none());
}

#[test]
fn operands_and_expressions() {
    let (next, ast) = parse_atom(Parser::new("a + b")).unwrap();
    assert_eq!((next.index, ast), (1, named("a")));
    let (next, ast) = parse_value(Parser::new("a + b")).unwrap();
    assert_eq!(
        (next.index, ast),
        (5, AST::Add(Box::new(named("a")), Box::new(named("b"))))
    );
    let (next, ast) = parse_value(Parser::new("a  )")).unwrap();
    assert_eq!((next.index, ast), (3, named("a")));
    // A sign takes all that follows it.
    let (_, ast) = parse_value(Parser::new("-a + b")).unwrap();
    assert_eq!(
        ast,
        AST::Negative(Box::new(AST::Add(Box::new(named("a")), Box::new(named("b")))))
    );
    // Operators take their right side whole.
    let (_, ast) = parse_value(Parser::new("2 * a + b")).unwrap();
    assert_eq!(
        ast,
        AST::Mul(
            Box::new(num(2)),
            Box::new(AST::Add(Box::new(named("a")), Box::new(named("b")))),
        )
    );
    let (_, ast) = parse_value(Parser::new("(2 * a) + b")).unwrap();
    assert_eq!(
        ast,
        AST::Add(
            Box::new(AST::Mul(Box::new(num(2)), Box::new(named("a")))),
            Box::new(named("b")),
        )
    );
    assert!(parse_value(Parser::new("a *")).is_none());
    assert!(parse_value(Parser::new("*")).is_none());
}
