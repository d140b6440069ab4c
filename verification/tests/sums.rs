use bracket_algebra::error::Error;
use bracket_algebra::v2::{Search, Term, Value};

fn sum(terms: Vec<(i32, Vec<i32>)>) -> Value {
    Value::new(terms.into_iter().map(|(n, es)| Term::new(n, es)).collect())
}

fn terms(value: &Value) -> Vec<(i32, Vec<i32>)> {
    value.terms.iter().map(|term| (term.n, term.es.clone())).collect()
}

#[test]
fn bracket_appends_a_generator() {
    let value = sum(vec![(3, vec![2, 1]), (-1, vec![])]);
    let next = value.braket(3).unwrap();
    assert_eq!(terms(&next), vec![(3, vec![2, 1, 3]), (-1, vec![3])]);
}

#[test]
fn bracket_of_two_generators_has_the_higher_first() {
    let value = sum(vec![(3, vec![1]), (5, vec![2]), (7, vec![3])]);
    let next = value.braket(2).unwrap();
    assert_eq!(
        terms(&next),
        vec![(-3, vec![2, 1]), (5, vec![2, 2]), (7, vec![3, 2])]
    );
    let fails = sum(vec![(i32::MIN, vec![1])]).braket(2);
    assert_eq!(fails.err(), Some(Error::Overflow));
    let stays = sum(vec![(i32::MIN, vec![3])]).braket(2).unwrap();
    assert_eq!(terms(&stays), vec![(i32::MIN, vec![3, 2])]);
}

#[test]
fn times_multiplies_each_coefficient() {
    let value = sum(vec![(3, vec![2, 1]), (-1, vec![1])]);
    assert_eq!(
        terms(&value.times(-2).unwrap()),
        vec![(-6, vec![2, 1]), (2, vec![1])]
    );
    let fails = sum(vec![(1, vec![1]), (65536, vec![2])]).times(32768);
    assert_eq!(fails.err(), Some(Error::Overflow));
}

#[test]
fn add_merges_equal_indices() {
    let a = sum(vec![(3, vec![2, 1]), (-1, vec![1])]);
    let b = sum(vec![(1, vec![1]), (4, vec![3]), (2, vec![2, 1])]);
    assert_eq!(
        terms(&a.add(b).unwrap()),
        vec![(5, vec![2, 1]), (4, vec![3])]
    );
    let zero = sum(vec![(1, vec![1])]).add(sum(vec![(-1, vec![1])])).unwrap();
    assert!(zero.equals_zero());
    assert!(!sum(vec![(0, vec![1])]).equals_zero());
    let kept = sum(vec![(0, vec![1])]).add(sum(vec![])).unwrap();
    assert!(kept.equals_zero());
    let fails = sum(vec![(i32::MAX, vec![1])]).add(sum(vec![(1, vec![1])]));
    assert_eq!(fails.err(), Some(Error::Overflow));
}

#[test]
fn search_starts_with_two_generators() {
    let search = Search::start();
    assert_eq!(terms(&search.nx), vec![(-1, vec![2, 1])]);
    assert_eq!(terms(&search.nx_f1), vec![(-1, vec![2])]);
    assert_eq!(terms(&search.nx_f2), vec![(0, vec![1])]);
    assert!(search.nx_f3.equals_zero());
    assert_eq!(terms(&search.nx_h1), vec![(1, vec![2, 1])]);
    assert_eq!(terms(&search.nx_h2), vec![(1, vec![2, 1])]);
    assert_eq!(terms(&search.nx_h3), vec![(-2, vec![2, 1])]);
    assert!(!search.found());
}

#[test]
fn search_step_appends_and_subtracts() {
    // Step 2 appends E(3): no bracket with F is reduced by one with H.
    let search = Search::start().step(2).unwrap();
    assert_eq!(terms(&search.nx), vec![(-1, vec![2, 1, 3])]);
    assert_eq!(terms(&search.nx_f1), vec![(1, vec![3, 2])]);
    assert_eq!(terms(&search.nx_f2), vec![(0, vec![3, 1])]);
    assert!(search.nx_f3.equals_zero());
    // [h1, E(3)] - C(0, 2) * [nx, E(3)] with C(0, 2) = -1.
    assert!(search.nx_h1.equals_zero());
    // C(1, 2) = -2: 1 - 2 = -1.
    assert_eq!(terms(&search.nx_h2), vec![(-1, vec![2, 1, 3])]);
    // C(2, 2) = 2: -2 + 2 = 0.
    assert!(search.nx_h3.equals_zero());

    // Step 3 appends E(1): the brackets with F(1) and F(3) are reduced.
    let search = search.step(3).unwrap();
    assert_eq!(terms(&search.nx), vec![(-1, vec![2, 1, 3, 1])]);
    assert_eq!(terms(&search.nx_f1), vec![(1, vec![3, 2, 1])]);
    assert_eq!(terms(&search.nx_f2), vec![(0, vec![3, 1, 1])]);
    assert!(search.nx_f3.equals_zero());
    assert!(!search.found());
}

#[test]
fn sums_are_written_term_by_term() {
    let value = sum(vec![(3, vec![2, 1, 3]), (-1, vec![1]), (0, vec![])]);
    assert_eq!(
        value.to_string(),
        "3 * [[E(2), E(1)], E(3)] + -1 * E(1) + 0 *  + "
    );
    assert_eq!(sum(vec![]).to_string(), "");
    assert_eq!(Term::new(-12, vec![10, 2]).to_string(), "-12 * [E(10), E(2)] + ");
}

#[test]
fn sums_compare_term_by_term() {
    let value = sum(vec![(3, vec![2, 1]), (-1, vec![1])]);
    assert_eq!(value.clone(), value);
    assert_eq!(value, sum(vec![(3, vec![2, 1]), (-1, vec![1])]));
    assert_ne!(value, sum(vec![(-1, vec![1]), (3, vec![2, 1])]));
    assert_ne!(value, sum(vec![(3, vec![2, 1])]));
    assert_ne!(value, sum(vec![(3, vec![2, 1]), (-1, vec![2])]));
    assert_ne!(Term::new(1, vec![1]), Term::new(2, vec![1]));
    assert_eq!(Term::new(1, vec![1, 2]), Term::new(1, vec![1, 2]));
    assert_eq!(Search::start().step(2).unwrap().nx, sum(vec![(-1, vec![2, 1, 3])]));
}
