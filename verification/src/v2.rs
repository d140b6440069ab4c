//! Sums of nested brackets of the generators `E`, held as lists of indices: a
//! term `n * [[E(a), E(b)], E(c)]` is the coefficient `n` with the indices
//! `a, b, c`.

use vstd::prelude::*;
use crate::collect::nonzero;
use crate::error::{Error, Failure};
use crate::eval::{c, structure_constant};

verus! {

/// The mathematical view of a [`Term`]: a coefficient and the indices of the
/// generators, from the innermost bracket outwards.
pub type Monomial = (int, Seq<i32>);

/// Whether `n` can be held as a coefficient.
pub open spec fn fits(n: int) -> bool {
    i32::MIN <= n <= i32::MAX
}

/// The bracket of a term with `E(e)`: `e` is appended. A bracket of two
/// generators has the higher index first: where `e` is the higher one, the two
/// are exchanged and the sign of the coefficient changes.
pub open spec fn term_bracketed(term: Monomial, e: i32) -> Monomial {
    if term.1.len() == 1 && e > term.1[0] {
        (-term.0, seq![e, term.1[0]])
    } else {
        (term.0, term.1.push(e))
    }
}

/// The bracket of a sum with `E(e)`, term by term; `Overflow` where a
/// coefficient cannot change its sign.
pub open spec fn bracketed(terms: Seq<Monomial>, e: i32) -> Result<Seq<Monomial>, Failure> {
    if forall|i: int| 0 <= i < terms.len() ==> fits(term_bracketed(#[trigger] terms[i], e).0) {
        Ok(Seq::new(terms.len(), |i: int| term_bracketed(terms[i], e)))
    } else {
        Err(Failure::Overflow)
    }
}

/// The product of a sum and `n`, term by term; `Overflow` where a product is
/// beyond the coefficients.
pub open spec fn multiplied(terms: Seq<Monomial>, n: i32) -> Result<Seq<Monomial>, Failure> {
    if forall|i: int| 0 <= i < terms.len() ==> fits((#[trigger] terms[i]).0 * n) {
        Ok(Seq::new(terms.len(), |i: int| (terms[i].0 * n, terms[i].1)))
    } else {
        Err(Failure::Overflow)
    }
}

/// Adds a term to a sum: its coefficient goes to the first term with the same
/// indices, or the term goes to the end where there is none. `Overflow` where
/// the sum of the two coefficients is beyond the coefficients.
pub open spec fn absorbed(terms: Seq<Monomial>, term: Monomial) -> Result<Seq<Monomial>, Failure>
    decreases terms.len(),
{
    if terms.len() == 0 {
        Ok(seq![term])
    } else if terms[0].1 == term.1 {
        if fits(terms[0].0 + term.0) {
            Ok(seq![(terms[0].0 + term.0, term.1)] + terms.drop_first())
        } else {
            Err(Failure::Overflow)
        }
    } else {
        match absorbed(terms.drop_first(), term) {
            Ok(rest) => Ok(seq![terms[0]] + rest),
            Err(e) => Err(e),
        }
    }
}

/// Adds the terms of `more` to a sum, one after the other.
pub open spec fn absorbed_all(terms: Seq<Monomial>, more: Seq<Monomial>) -> Result<
    Seq<Monomial>,
    Failure,
>
    decreases more.len(),
{
    if more.len() == 0 {
        Ok(terms)
    } else {
        match absorbed(terms, more[0]) {
            Ok(next) => absorbed_all(next, more.drop_first()),
            Err(e) => Err(e),
        }
    }
}

/// The sum of two sums: the terms of the second are added to the first, and
/// the terms with coefficient zero are left out.
pub open spec fn added(terms: Seq<Monomial>, more: Seq<Monomial>) -> Result<Seq<Monomial>, Failure> {
    match absorbed_all(terms, more) {
        Ok(sum) => Ok(nonzero(sum)),
        Err(e) => Err(e),
    }
}

/// A coefficient with the indices of the generators it multiplies.
#[derive(Debug)]
pub struct Term {
    pub n: i32,
    pub es: Vec<i32>,
}

impl View for Term {
    type V = Monomial;

    open spec fn view(&self) -> Monomial {
        (self.n as int, self.es@)
    }
}

impl Term {
    pub fn new(n: i32, es: Vec<i32>) -> (res: Term)
        ensures
            res@ == (n as int, es@),
    {
        Term { n, es }
    }
}

impl Clone for Term {
    fn clone(&self) -> (res: Term)
        ensures
            res@ == self@,
    {
        let es = self.es.clone();
        assert(es@ =~= self.es@);
        Term { n: self.n, es }
    }
}

impl PartialEq for Term {
    fn eq(&self, other: &Term) -> (res: bool) {
        let same = self.es == other.es;
        assert(same == (self.es@ =~= other.es@));
        self.n == other.n && same
    }
}

impl Eq for Term {

}

impl vstd::std_specs::cmp::PartialEqSpecImpl for Term {
    open spec fn obeys_eq_spec() -> bool {
        true
    }

    open spec fn eq_spec(&self, other: &Term) -> bool {
        self@ == other@
    }
}

/// The terms that a list of terms stands for.
pub open spec fn monomials(terms: Seq<Term>) -> Seq<Monomial> {
    Seq::new(terms.len(), |i: int| terms[i]@)
}

/// A sum of terms.
#[derive(Debug)]
pub struct Value {
    pub terms: Vec<Term>,
}

impl View for Value {
    type V = Seq<Monomial>;

    open spec fn view(&self) -> Seq<Monomial> {
        monomials(self.terms@)
    }
}

impl Clone for Value {
    fn clone(&self) -> (res: Value)
        ensures
            res@ == self@,
    {
        let mut terms: Vec<Term> = Vec::new();
        let mut i: usize = 0;
        while i < self.terms.len()
            invariant
                i <= self.terms@.len(),
                terms@.len() == i,
                forall|j: int| 0 <= j < i ==> (#[trigger] terms@[j])@ == self.terms@[j]@,
            decreases self.terms@.len() - i,
        {
            terms.push(self.terms[i].clone());
            i += 1;
        }
        assert(monomials(terms@) =~= monomials(self.terms@));
        Value { terms }
    }
}

impl PartialEq for Value {
    fn eq(&self, other: &Value) -> (res: bool) {
        if self.terms.len() != other.terms.len() {
            assert(self@.len() != other@.len());
            return false;
        }
        let mut i: usize = 0;
        while i < self.terms.len()
            invariant
                i <= self.terms@.len(),
                self.terms@.len() == other.terms@.len(),
                forall|j: int| 0 <= j < i ==> (#[trigger] self.terms@[j])@ == other.terms@[j]@,
            decreases self.terms@.len() - i,
        {
            if self.terms[i] != other.terms[i] {
                assert(self@[i as int] != other@[i as int]);
                return false;
            }
            i += 1;
        }
        assert(self@ =~= other@);
        true
    }
}

impl Eq for Value {

}

impl vstd::std_specs::cmp::PartialEqSpecImpl for Value {
    open spec fn obeys_eq_spec() -> bool {
        true
    }

    open spec fn eq_spec(&self, other: &Value) -> bool {
        self@ == other@
    }
}

/// Whether an outcome is the one that the model gives.
pub open spec fn agrees(outcome: Result<Value, Error>, model: Result<Seq<Monomial>, Failure>) -> bool {
    match outcome {
        Ok(value) => model == Ok::<Seq<Monomial>, Failure>(value@),
        Err(e) => model == Err::<Seq<Monomial>, Failure>(e@),
    }
}

/// A term goes to the first place that holds its indices.
proof fn lemma_absorbed_found(terms: Seq<Monomial>, term: Monomial, j: int)
    requires
        0 <= j < terms.len(),
        terms[j].1 == term.1,
        forall|k: int| 0 <= k < j ==> (#[trigger] terms[k]).1 != term.1,
    ensures
        absorbed(terms, term) == if fits(terms[j].0 + term.0) {
            Ok::<Seq<Monomial>, Failure>(terms.update(j, (terms[j].0 + term.0, terms[j].1)))
        } else {
            Err(Failure::Overflow)
        },
    decreases j,
{
    if j == 0 {
        assert(seq![(terms[0].0 + term.0, term.1)] + terms.drop_first() =~= terms.update(
            0,
            (terms[0].0 + term.0, terms[0].1),
        ));
    } else {
        let rest = terms.drop_first();
        assert(terms[0].1 != term.1);
        assert(rest[j - 1] == terms[j]);
        assert forall|k: int| 0 <= k < j - 1 implies (#[trigger] rest[k]).1 != term.1 by {
            assert(rest[k] == terms[k + 1]);
        }
        lemma_absorbed_found(rest, term, j - 1);
        assert(seq![terms[0]] + rest.update(j - 1, (terms[j].0 + term.0, terms[j].1))
            =~= terms.update(j, (terms[j].0 + term.0, terms[j].1)));
    }
}

/// A term whose indices no place holds goes to the end.
proof fn lemma_absorbed_new(terms: Seq<Monomial>, term: Monomial)
    requires
        forall|k: int| 0 <= k < terms.len() ==> (#[trigger] terms[k]).1 != term.1,
    ensures
        absorbed(terms, term) == Ok::<Seq<Monomial>, Failure>(terms.push(term)),
    decreases terms.len(),
{
    if terms.len() == 0 {
        assert(seq![term] =~= terms.push(term));
    } else {
        let rest = terms.drop_first();
        assert(terms[0].1 != term.1);
        assert forall|k: int| 0 <= k < rest.len() implies (#[trigger] rest[k]).1 != term.1 by {
            assert(rest[k] == terms[k + 1]);
        }
        lemma_absorbed_new(rest, term);
        assert(seq![terms[0]] + rest.push(term) =~= terms.push(term));
    }
}

/// Adds `term` to `terms`.
fn absorb(terms: &mut Vec<Term>, term: Term) -> (res: Result<(), Error>)
    ensures
        match res {
            Ok(_) => absorbed(monomials(old(terms)@), term@) == Ok::<Seq<Monomial>, Failure>(
                monomials(final(terms)@),
            ),
            Err(e) => absorbed(monomials(old(terms)@), term@) == Err::<Seq<Monomial>, Failure>(
                e@,
            ),
        },
{
    let ghost before = monomials(terms@);
    let mut j: usize = 0;
    while j < terms.len()
        invariant
            j <= terms@.len(),
            terms@ == old(terms)@,
            before == monomials(terms@),
            forall|k: int| 0 <= k < j ==> (#[trigger] before[k]).1 != term@.1,
        decreases terms@.len() - j,
    {
        let same = terms[j].es == term.es;
        assert(same == (terms@[j as int].es@ =~= term.es@));
        if same {
            proof {
                lemma_absorbed_found(before, term@, j as int);
            }
            return match terms[j].n.checked_add(term.n) {
                Some(sum) => {
                    let place = &mut terms[j];
                    place.n = sum;
                    assert(monomials(terms@) =~= before.update(
                        j as int,
                        (before[j as int].0 + term@.0, before[j as int].1),
                    ));
                    Ok(())
                },
                None => Err(Error::Overflow),
            };
        }
        j += 1;
    }
    proof {
        lemma_absorbed_new(before, term@);
    }
    terms.push(term);
    assert(monomials(terms@) =~= before.push(term@));
    Ok(())
}

impl Value {
    pub fn new(terms: Vec<Term>) -> (res: Value)
        ensures
            res@ == monomials(terms@),
    {
        Value { terms }
    }

    /// The bracket of this sum with `E(e)`.
    pub fn braket(self, e: i32) -> (res: Result<Value, Error>)
        ensures
            agrees(res, bracketed(self@, e)),
    {
        let ghost before = self@;
        let mut terms = self.terms;
        let mut i: usize = 0;
        while i < terms.len()
            invariant
                i <= terms@.len(),
                terms@.len() == before.len(),
                before == self@,
                forall|j: int| 0 <= j < i ==> fits(term_bracketed(#[trigger] before[j], e).0),
                forall|j: int| 0 <= j < i ==> (#[trigger] terms@[j])@ == term_bracketed(before[j], e),
                forall|j: int| i <= j < terms@.len() ==> (#[trigger] terms@[j])@ == before[j],
            decreases terms@.len() - i,
        {
            let ghost old_terms = terms@;
            let exchange = terms[i].es.len() == 1 && e > terms[i].es[0];
            if exchange {
                if terms[i].n == i32::MIN {
                    proof {
                        assert(!fits(term_bracketed(before[i as int], e).0));
                    }
                    return Err(Error::Overflow);
                }
                let first = terms[i].es[0];
                let place = &mut terms[i];
                place.n = -place.n;
                place.es.set(0, e);
                place.es.push(first);
                assert(terms@[i as int].es@ =~= seq![e, first]);
            } else {
                let place = &mut terms[i];
                place.es.push(e);
            }
            assert(forall|j: int| 0 <= j < terms@.len() && j != i ==> terms@[j] == old_terms[j]);
            i += 1;
        }
        assert(monomials(terms@) =~= Seq::new(before.len(), |i: int| term_bracketed(before[i], e)));
        Ok(Value { terms })
    }

    /// The product of this sum and `n`.
    pub fn times(self, n: i32) -> (res: Result<Value, Error>)
        ensures
            agrees(res, multiplied(self@, n)),
    {
        let ghost before = self@;
        let mut terms = self.terms;
        let mut i: usize = 0;
        while i < terms.len()
            invariant
                i <= terms@.len(),
                terms@.len() == before.len(),
                before == self@,
                forall|j: int| 0 <= j < i ==> fits((#[trigger] before[j]).0 * n),
                forall|j: int|
                    0 <= j < i ==> (#[trigger] terms@[j])@ == (before[j].0 * n, before[j].1),
                forall|j: int| i <= j < terms@.len() ==> (#[trigger] terms@[j])@ == before[j],
            decreases terms@.len() - i,
        {
            let ghost old_terms = terms@;
            match terms[i].n.checked_mul(n) {
                Some(product) => {
                    let place = &mut terms[i];
                    place.n = product;
                },
                None => {
                    proof {
                        assert(!fits(before[i as int].0 * n));
                    }
                    return Err(Error::Overflow);
                },
            }
            assert(forall|j: int| 0 <= j < terms@.len() && j != i ==> terms@[j] == old_terms[j]);
            i += 1;
        }
        assert(monomials(terms@) =~= Seq::new(before.len(), |i: int| (before[i].0 * n, before[i].1)));
        Ok(Value { terms })
    }

    /// The sum of this sum and `b`.
    pub fn add(self, b: Value) -> (res: Result<Value, Error>)
        ensures
            agrees(res, added(self@, b@)),
    {
        let ghost first = self@;
        let ghost second = b@;
        let mut terms = self.terms;
        let mut i: usize = 0;
        assert(second.skip(0) =~= second);
        while i < b.terms.len()
            invariant
                i <= b.terms@.len(),
                second == monomials(b.terms@),
                first == self@,
                second == b@,
                absorbed_all(first, second) == absorbed_all(monomials(terms@), second.skip(i as int)),
            decreases b.terms@.len() - i,
        {
            proof {
                assert(second.skip(i as int).drop_first() =~= second.skip(i + 1));
                assert(second.skip(i as int)[0] == b.terms@[i as int]@);
            }
            match absorb(&mut terms, b.terms[i].clone()) {
                Ok(_) => {},
                Err(e) => {
                    return Err(e);
                },
            }
            i += 1;
        }
        let ghost sum = monomials(terms@);
        assert(absorbed_all(first, second) == Ok::<Seq<Monomial>, Failure>(sum));
        let mut k: usize = terms.len();
        assert(sum.take(k as int) + nonzero(sum.skip(k as int)) =~= sum) by {
            assert(sum.skip(k as int) =~= Seq::<Monomial>::empty());
        }
        while k > 0
            invariant
                k <= terms@.len(),
                k <= sum.len(),
                first == self@,
                second == b@,
                absorbed_all(first, second) == Ok::<Seq<Monomial>, Failure>(sum),
                monomials(terms@) == sum.take(k as int) + nonzero(sum.skip(k as int)),
            decreases k,
        {
            k -= 1;
            let ghost kept = nonzero(sum.skip(k + 1));
            proof {
                assert(sum.skip(k as int).drop_first() =~= sum.skip(k + 1));
                assert(sum.skip(k as int)[0] == sum[k as int]);
                assert(monomials(terms@)[k as int] == sum[k as int]);
            }
            let ghost held = monomials(terms@);
            if terms[k].n == 0 {
                terms.remove(k);
                assert(monomials(terms@) =~= held.remove(k as int));
                assert(held.remove(k as int) =~= sum.take(k as int) + kept);
            } else {
                assert(sum.take(k + 1) + kept =~= sum.take(k as int) + (seq![sum[k as int]] + kept));
            }
        }
        assert(sum.skip(0) =~= sum);
        assert(sum.take(0) + nonzero(sum) =~= nonzero(sum));
        Ok(Value { terms })
    }

    /// Whether this sum has no term.
    pub fn equals_zero(&self) -> (res: bool)
        ensures
            res == (self@.len() == 0),
    {
        self.terms.len() == 0
    }
}

/// The mathematical view of a [`Search`].
pub struct SearchState {
    pub nx: Seq<Monomial>,
    pub nx_f1: Seq<Monomial>,
    pub nx_f2: Seq<Monomial>,
    pub nx_f3: Seq<Monomial>,
    pub nx_h1: Seq<Monomial>,
    pub nx_h2: Seq<Monomial>,
    pub nx_h3: Seq<Monomial>,
}

/// The chain `[[E(1), E(2)], E(..)] ..`, with its brackets with `F(1)`, `F(2)`,
/// `F(3)` and with `H(1)`, `H(2)`, `H(3)`, each as a sum of brackets of
/// generators `E`.
#[derive(Debug)]
pub struct Search {
    pub nx: Value,
    pub nx_f1: Value,
    pub nx_f2: Value,
    pub nx_f3: Value,
    pub nx_h1: Value,
    pub nx_h2: Value,
    pub nx_h3: Value,
}

impl View for Search {
    type V = SearchState;

    open spec fn view(&self) -> SearchState {
        SearchState {
            nx: self.nx@,
            nx_f1: self.nx_f1@,
            nx_f2: self.nx_f2@,
            nx_f3: self.nx_f3@,
            nx_h1: self.nx_h1@,
            nx_h2: self.nx_h2@,
            nx_h3: self.nx_h3@,
        }
    }
}

/// The chain `[E(1), E(2)]` with its brackets.
pub open spec fn started() -> SearchState {
    SearchState {
        nx: seq![(-1int, seq![2i32, 1i32])],
        nx_f1: seq![(-1int, seq![2i32])],
        nx_f2: seq![(0int, seq![1i32])],
        nx_f3: Seq::empty(),
        nx_h1: seq![(1int, seq![2i32, 1i32])],
        nx_h2: seq![(1int, seq![2i32, 1i32])],
        nx_h3: seq![(-2int, seq![2i32, 1i32])],
    }
}

/// The bracket with an `F` after a step that appends `E(e)`: its bracket with
/// `E(e)`, less the bracket with the matching `H` where the step subtracts it.
pub open spec fn f_stepped(f: Seq<Monomial>, h: Seq<Monomial>, e: i32, subtract: bool) -> Result<
    Seq<Monomial>,
    Failure,
> {
    match bracketed(f, e) {
        Ok(bracket) => if subtract {
            match multiplied(h, -1i32) {
                Ok(negative) => added(bracket, negative),
                Err(e) => Err(e),
            }
        } else {
            Ok(bracket)
        },
        Err(e) => Err(e),
    }
}

/// The bracket with an `H` after a step that appends `E(e)`: its bracket with
/// `E(e)`, less `factor` times the bracket of the chain with `E(e)`.
pub open spec fn h_stepped(h: Seq<Monomial>, nx: Seq<Monomial>, e: i32, factor: i32) -> Result<
    Seq<Monomial>,
    Failure,
> {
    match bracketed(h, e) {
        Ok(bracket) => match bracketed(nx, e) {
            Ok(chain) => match multiplied(chain, factor) {
                Ok(product) => added(bracket, product),
                Err(e) => Err(e),
            },
            Err(e) => Err(e),
        },
        Err(e) => Err(e),
    }
}

/// The state after step `n`, which appends `E(n % 3 + 1)`. The first part that
/// fails makes the failure.
pub open spec fn stepped(state: SearchState, n: i32) -> Result<SearchState, Failure> {
    let e = (n % 3 + 1) as i32;
    let column = (n % 3) as int;
    match f_stepped(state.nx_f1, state.nx_h1, e, e == 1) {
        Ok(nx_f1) => match f_stepped(state.nx_f2, state.nx_h2, e, e == 2) {
            Ok(nx_f2) => match f_stepped(state.nx_f3, state.nx_h3, e, e == 1) {
                Ok(nx_f3) => match h_stepped(
                    state.nx_h1,
                    state.nx,
                    e,
                    (-structure_constant(0, column)) as i32,
                ) {
                    Ok(nx_h1) => match h_stepped(
                        state.nx_h2,
                        state.nx,
                        e,
                        (-structure_constant(1, column)) as i32,
                    ) {
                        Ok(nx_h2) => match h_stepped(
                            state.nx_h3,
                            state.nx,
                            e,
                            (-structure_constant(2, column)) as i32,
                        ) {
                            Ok(nx_h3) => match bracketed(state.nx, e) {
                                Ok(nx) => Ok(
                                    SearchState { nx, nx_f1, nx_f2, nx_f3, nx_h1, nx_h2, nx_h3 },
                                ),
                                Err(e) => Err(e),
                            },
                            Err(e) => Err(e),
                        },
                        Err(e) => Err(e),
                    },
                    Err(e) => Err(e),
                },
                Err(e) => Err(e),
            },
            Err(e) => Err(e),
        },
        Err(e) => Err(e),
    }
}

/// The bracket with an `F` after a step.
fn step_f(f: Value, h: &Value, e: i32, subtract: bool) -> (res: Result<Value, Error>)
    ensures
        agrees(res, f_stepped(f@, h@, e, subtract)),
{
    match f.braket(e) {
        Ok(bracket) => if subtract {
            match h.clone().times(-1) {
                Ok(negative) => bracket.add(negative),
                Err(e) => Err(e),
            }
        } else {
            Ok(bracket)
        },
        Err(e) => Err(e),
    }
}

/// The bracket with an `H` after a step.
fn step_h(h: Value, nx: &Value, e: i32, factor: i32) -> (res: Result<Value, Error>)
    ensures
        agrees(res, h_stepped(h@, nx@, e, factor)),
{
    match h.braket(e) {
        Ok(bracket) => match nx.clone().braket(e) {
            Ok(chain) => match chain.times(factor) {
                Ok(product) => bracket.add(product),
                Err(e) => Err(e),
            },
            Err(e) => Err(e),
        },
        Err(e) => Err(e),
    }
}

impl Search {
    /// The chain `[E(1), E(2)]` with its brackets.
    pub fn start() -> (res: Search)
        ensures
            res@ == started(),
    {
        let res = Search {
            nx: Value::new(vec![Term::new(-1, vec![2, 1])]),
            nx_f1: Value::new(vec![Term::new(-1, vec![2])]),
            nx_f2: Value::new(vec![Term::new(0, vec![1])]),
            nx_f3: Value::new(Vec::new()),
            nx_h1: Value::new(vec![Term::new(1, vec![2, 1])]),
            nx_h2: Value::new(vec![Term::new(1, vec![2, 1])]),
            nx_h3: Value::new(vec![Term::new(-2, vec![2, 1])]),
        };
        proof {
            assert(res.nx@ =~~= started().nx);
            assert(res.nx_f1@ =~~= started().nx_f1);
            assert(res.nx_f2@ =~~= started().nx_f2);
            assert(res.nx_f3@ =~~= started().nx_f3);
            assert(res.nx_h1@ =~~= started().nx_h1);
            assert(res.nx_h2@ =~~= started().nx_h2);
            assert(res.nx_h3@ =~~= started().nx_h3);
        }
        res
    }

    /// Makes step `n`, which appends `E(n % 3 + 1)` to the chain.
    pub fn step(self, n: i32) -> (res: Result<Search, Error>)
        requires
            0 <= n,
        ensures
            match res {
                Ok(next) => stepped(self@, n) == Ok::<SearchState, Failure>(next@),
                Err(e) => stepped(self@, n) == Err::<SearchState, Failure>(e@),
            },
    {
        let e = n % 3 + 1;
        let column = n % 3;
        let Search { nx, nx_f1, nx_f2, nx_f3, nx_h1, nx_h2, nx_h3 } = self;
        let next_f1 = match step_f(nx_f1, &nx_h1, e, e == 1) {
            Ok(value) => value,
            Err(e) => {
                return Err(e);
            },
        };
        let next_f2 = match step_f(nx_f2, &nx_h2, e, e == 2) {
            Ok(value) => value,
            Err(e) => {
                return Err(e);
            },
        };
        let next_f3 = match step_f(nx_f3, &nx_h3, e, e == 1) {
            Ok(value) => value,
            Err(e) => {
                return Err(e);
            },
        };
        let next_h1 = match step_h(nx_h1, &nx, e, -c(0, column)) {
            Ok(value) => value,
            Err(e) => {
                return Err(e);
            },
        };
        let next_h2 = match step_h(nx_h2, &nx, e, -c(1, column)) {
            Ok(value) => value,
            Err(e) => {
                return Err(e);
            },
        };
        let next_h3 = match step_h(nx_h3, &nx, e, -c(2, column)) {
            Ok(value) => value,
            Err(e) => {
                return Err(e);
            },
        };
        match nx.braket(e) {
            Ok(next) => Ok(
                Search {
                    nx: next,
                    nx_f1: next_f1,
                    nx_f2: next_f2,
                    nx_f3: next_f3,
                    nx_h1: next_h1,
                    nx_h2: next_h2,
                    nx_h3: next_h3,
                },
            ),
            Err(e) => Err(e),
        }
    }

    /// Whether the brackets with `F(1)`, `F(2)` and `F(3)` have all vanished.
    pub fn found(&self) -> (res: bool)
        ensures
            res == (self@.nx_f1.len() == 0 && self@.nx_f2.len() == 0 && self@.nx_f3.len() == 0),
    {
        self.nx_f1.equals_zero() && self.nx_f2.equals_zero() && self.nx_f3.equals_zero()
    }
}

} // verus!
