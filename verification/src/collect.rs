//! The term collector: reads a sum as a list of monomials with integer
//! coefficients, merges equal monomials, and writes the sum that is left.

use vstd::prelude::*;
use crate::canon::{canonical, lemma_canonical_unsigned, standerdize};
use crate::error::{Error, Failure};
use crate::eval::agrees;
use crate::value::{Expr, Value};

verus! {

/// A monomial with its coefficient.
pub type Term = (int, Expr);

/// Splits a leading literal factor off a product: the factor and what it
/// multiplies. Anything else has the factor 1.
pub open spec fn factor(value: Expr) -> Term {
    match value {
        Expr::Mul(n, m) => match n.literal() {
            Some(c) => (c, *m),
            None => (1, value),
        },
        _ => (1, value),
    }
}

/// The coefficient and the monomial of a summand as it is written: a leading
/// sign and a leading literal factor make the coefficient.
pub open spec fn classify(summand: Expr) -> Term {
    match summand {
        Expr::Negative(inner) => (-factor(*inner).0, factor(*inner).1),
        _ => factor(summand),
    }
}

/// The term of a summand: its monomial in canonical form, with the sign that
/// canonical form brings moved into the coefficient.
pub open spec fn term_of(summand: Expr) -> Term {
    let (c, m) = classify(summand);
    match canonical(m) {
        Expr::Negative(inner) => (-c, *inner),
        other => (c, other),
    }
}

/// The terms of a sum that leans to the right, in the order in which they stand.
pub open spec fn terms_of(value: Expr) -> Seq<Term>
    decreases value,
{
    match value {
        Expr::Add(a, b) => seq![term_of(*a)] + terms_of(*b),
        _ => seq![term_of(value)],
    }
}

/// Adds a term to a list of terms: its coefficient goes to the first term with
/// the same monomial, or the term goes to the end where there is none.
pub open spec fn absorb(terms: Seq<Term>, term: Term) -> Seq<Term>
    decreases terms.len(),
{
    if terms.len() == 0 {
        seq![term]
    } else if terms[0].1 == term.1 {
        seq![(terms[0].0 + term.0, term.1)] + terms.drop_first()
    } else {
        seq![terms[0]] + absorb(terms.drop_first(), term)
    }
}

/// The terms with equal monomials merged: each monomial stands once, where it
/// stood first, with the sum of its coefficients.
pub open spec fn merged(terms: Seq<Term>) -> Seq<Term>
    decreases terms.len(),
{
    if terms.len() == 0 {
        Seq::empty()
    } else {
        absorb(merged(terms.drop_last()), terms.last())
    }
}

/// The terms whose coefficient is not zero, in their order.
pub open spec fn nonzero<M>(terms: Seq<(int, M)>) -> Seq<(int, M)>
    decreases terms.len(),
{
    if terms.len() == 0 {
        Seq::empty()
    } else if terms[0].0 != 0 {
        seq![terms[0]] + nonzero(terms.drop_first())
    } else {
        nonzero(terms.drop_first())
    }
}

/// Whether every coefficient can be written as a number, under a sign or not.
pub open spec fn fits(terms: Seq<Term>) -> bool {
    forall|i: int| 0 <= i < terms.len() ==> -0x7fff_ffff <= (#[trigger] terms[i]).0 <= 0x7fff_ffff
}

/// A monomial with a coefficient that is not zero, written as a value: the
/// monomial itself for 1, under a sign for -1, and else the product of the
/// magnitude and the monomial, under a sign where the coefficient is negative.
pub open spec fn scaled(c: int, m: Expr) -> Expr {
    if c == 1 {
        m
    } else if c == -1 {
        Expr::Negative(Box::new(m))
    } else if c > 0 {
        Expr::Mul(Box::new(Expr::Number(c)), Box::new(m))
    } else {
        Expr::Negative(Box::new(Expr::Mul(Box::new(Expr::Number(-c)), Box::new(m))))
    }
}

/// The sum of the terms, leaning to the right; zero where there is none.
pub open spec fn sum_of(terms: Seq<Term>) -> Expr
    decreases terms.len(),
{
    if terms.len() == 0 {
        Expr::zero()
    } else if terms.len() == 1 {
        scaled(terms[0].0, terms[0].1)
    } else {
        Expr::Add(Box::new(scaled(terms[0].0, terms[0].1)), Box::new(sum_of(terms.drop_first())))
    }
}

/// The sum `value` with its terms collected: the terms are merged, those with
/// coefficient zero are left out, and what stays is written as a sum. Where a
/// coefficient that stays is beyond what a number can hold, the result is
/// `Overflow`.
pub open spec fn collected(value: Expr) -> Result<Expr, Failure> {
    let kept = nonzero(merged(terms_of(value)));
    if fits(kept) {
        Ok(sum_of(kept))
    } else {
        Err(Failure::Overflow)
    }
}

/// A term goes to the first place that holds its monomial.
proof fn lemma_absorb_found(terms: Seq<Term>, term: Term, j: int)
    requires
        0 <= j < terms.len(),
        terms[j].1 == term.1,
        forall|k: int| 0 <= k < j ==> (#[trigger] terms[k]).1 != term.1,
    ensures
        absorb(terms, term) == terms.update(j, (terms[j].0 + term.0, terms[j].1)),
    decreases j,
{
    if j == 0 {
        assert(absorb(terms, term) =~= terms.update(0, (terms[0].0 + term.0, terms[0].1)));
    } else {
        let rest = terms.drop_first();
        assert(terms[0].1 != term.1);
        assert(rest[j - 1] == terms[j]);
        assert forall|k: int| 0 <= k < j - 1 implies (#[trigger] rest[k]).1 != term.1 by {
            assert(rest[k] == terms[k + 1]);
        }
        lemma_absorb_found(rest, term, j - 1);
        assert(absorb(terms, term) =~= terms.update(j, (terms[j].0 + term.0, terms[j].1)));
    }
}

/// A term whose monomial no place holds goes to the end.
proof fn lemma_absorb_new(terms: Seq<Term>, term: Term)
    requires
        forall|k: int| 0 <= k < terms.len() ==> (#[trigger] terms[k]).1 != term.1,
    ensures
        absorb(terms, term) == terms.push(term),
    decreases terms.len(),
{
    if terms.len() == 0 {
        assert(absorb(terms, term) =~= terms.push(term));
    } else {
        let rest = terms.drop_first();
        assert(terms[0].1 != term.1);
        assert forall|k: int| 0 <= k < rest.len() implies (#[trigger] rest[k]).1 != term.1 by {
            assert(rest[k] == terms[k + 1]);
        }
        lemma_absorb_new(rest, term);
        assert(absorb(terms, term) =~= terms.push(term));
    }
}

/// Whether no monomial of the terms holds a negative number or index.
pub open spec fn unsigned(terms: Seq<Term>) -> bool {
    forall|i: int| 0 <= i < terms.len() ==> (#[trigger] terms[i]).1.unsigned()
}

/// The monomial of a summand that holds nothing negative holds nothing negative.
proof fn lemma_term_unsigned(summand: Expr)
    requires
        summand.unsigned(),
    ensures
        term_of(summand).1.unsigned(),
{
    reveal_with_fuel(Expr::unsigned, 3);
    let m = classify(summand).1;
    assert(m.unsigned());
    lemma_canonical_unsigned(m);
}

/// The terms of a sum that holds nothing negative hold nothing negative.
proof fn lemma_terms_unsigned(value: Expr)
    requires
        value.unsigned(),
    ensures
        unsigned(terms_of(value)),
    decreases value,
{
    match value {
        Expr::Add(a, b) => {
            lemma_term_unsigned(*a);
            lemma_terms_unsigned(*b);
            let rest = terms_of(*b);
            assert forall|i: int| 0 <= i < terms_of(value).len() implies (
            #[trigger] terms_of(value)[i]).1.unsigned() by {
                if i > 0 {
                    assert(terms_of(value)[i] == rest[i - 1]);
                }
            }
        },
        _ => {
            lemma_term_unsigned(value);
        },
    }
}

/// Adding a term brings nothing negative into the monomials.
proof fn lemma_absorb_unsigned(terms: Seq<Term>, term: Term)
    requires
        unsigned(terms),
        term.1.unsigned(),
    ensures
        unsigned(absorb(terms, term)),
    decreases terms.len(),
{
    if terms.len() > 0 {
        let rest = terms.drop_first();
        assert forall|i: int| 0 <= i < rest.len() implies (#[trigger] rest[i]).1.unsigned() by {
            assert(rest[i] == terms[i + 1]);
        }
        if terms[0].1 != term.1 {
            lemma_absorb_unsigned(rest, term);
            let tail = absorb(rest, term);
            assert forall|i: int| 0 <= i < absorb(terms, term).len() implies (#[trigger] absorb(
                terms,
                term,
            )[i]).1.unsigned() by {
                if i > 0 {
                    assert(absorb(terms, term)[i] == tail[i - 1]);
                } else {
                    assert(absorb(terms, term)[0] == terms[0]);
                }
            }
        } else {
            assert forall|i: int| 0 <= i < absorb(terms, term).len() implies (#[trigger] absorb(
                terms,
                term,
            )[i]).1.unsigned() by {
                if i > 0 {
                    assert(absorb(terms, term)[i] == rest[i - 1]);
                }
            }
        }
    }
}

/// Merging brings nothing negative into the monomials.
proof fn lemma_merged_unsigned(terms: Seq<Term>)
    requires
        unsigned(terms),
    ensures
        unsigned(merged(terms)),
    decreases terms.len(),
{
    if terms.len() > 0 {
        let init = terms.drop_last();
        assert forall|i: int| 0 <= i < init.len() implies (#[trigger] init[i]).1.unsigned() by {
            assert(init[i] == terms[i]);
        }
        lemma_merged_unsigned(init);
        assert(terms.last() == terms[terms.len() - 1]);
        lemma_absorb_unsigned(merged(init), terms.last());
    }
}

/// The terms that stay have coefficients that are not zero, and monomials as
/// they were.
proof fn lemma_nonzero_unsigned(terms: Seq<Term>)
    requires
        unsigned(terms),
    ensures
        unsigned(nonzero(terms)),
        forall|i: int| 0 <= i < nonzero(terms).len() ==> (#[trigger] nonzero(terms)[i]).0 != 0,
    decreases terms.len(),
{
    if terms.len() > 0 {
        let rest = terms.drop_first();
        assert forall|i: int| 0 <= i < rest.len() implies (#[trigger] rest[i]).1.unsigned() by {
            assert(rest[i] == terms[i + 1]);
        }
        lemma_nonzero_unsigned(rest);
        let kept = nonzero(rest);
        assert forall|i: int| 0 <= i < nonzero(terms).len() implies (#[trigger] nonzero(
            terms,
        )[i]).1.unsigned() && nonzero(terms)[i].0 != 0 by {
            if terms[0].0 != 0 {
                if i > 0 {
                    assert(nonzero(terms)[i] == kept[i - 1]);
                } else {
                    assert(nonzero(terms)[0] == terms[0]);
                }
            }
        }
    }
}

/// The sum of terms that fit, with nothing negative in their monomials and no
/// coefficient zero, holds nothing negative.
proof fn lemma_sum_unsigned(terms: Seq<Term>)
    requires
        unsigned(terms),
        fits(terms),
        forall|i: int| 0 <= i < terms.len() ==> (#[trigger] terms[i]).0 != 0,
    ensures
        sum_of(terms).unsigned(),
    decreases terms.len(),
{
    reveal_with_fuel(Expr::unsigned, 4);
    if terms.len() > 0 {
        let head = terms[0];
        assert(head.1.unsigned());
        assert(scaled(head.0, head.1).unsigned());
        if terms.len() > 1 {
            let rest = terms.drop_first();
            assert forall|i: int| 0 <= i < rest.len() implies (#[trigger] rest[i]).1.unsigned()
                && -0x7fff_ffff <= rest[i].0 <= 0x7fff_ffff && rest[i].0 != 0 by {
                assert(rest[i] == terms[i + 1]);
            }
            lemma_sum_unsigned(rest);
        }
    }
}

/// Collection makes nothing negative: where no number and no index of `value`
/// is negative, none of the collected sum is.
pub proof fn lemma_collected_unsigned(value: Expr)
    requires
        value.unsigned(),
    ensures
        collected(value) matches Ok(sum) ==> sum.unsigned(),
{
    lemma_terms_unsigned(value);
    lemma_merged_unsigned(terms_of(value));
    lemma_nonzero_unsigned(merged(terms_of(value)));
    let kept = nonzero(merged(terms_of(value)));
    if fits(kept) {
        lemma_sum_unsigned(kept);
    }
}

/// The literal of an integer stands for that integer.
pub proof fn lemma_literal_of_int(n: int)
    ensures
        Expr::of_int(n).literal() == Some(n),
{
    reveal_with_fuel(Expr::literal, 3);
}

/// One term merges to itself.
proof fn lemma_merged_one(term: Term)
    ensures
        merged(seq![term]) == seq![term],
{
    let empty = Seq::<Term>::empty();
    assert(seq![term].drop_last() =~= empty);
    assert(merged(empty) =~= empty);
    assert(absorb(empty, term) =~= seq![term]);
    assert(seq![term].last() == term);
}

/// One term stays where its coefficient is not zero.
proof fn lemma_nonzero_one(term: Term)
    ensures
        nonzero(seq![term]) == if term.0 != 0 {
            seq![term]
        } else {
            Seq::<Term>::empty()
        },
{
    let empty = Seq::<Term>::empty();
    assert(seq![term].drop_first() =~= empty);
    assert(nonzero(empty) =~= empty);
    assert(seq![term] + empty =~= seq![term]);
}

/// Vanishing: a monomial and the same monomial under a sign collect to zero.
/// A monomial carries no sign of its own.
pub proof fn lemma_collected_vanishes(m: Expr)
    requires
        !(m is Negative),
    ensures
        collected(Expr::Add(Box::new(m), Box::new(Expr::Negative(Box::new(m))))) == Ok::<
            Expr,
            Failure,
        >(Expr::zero()),
{
    let negative = Expr::Negative(Box::new(m));
    let sum = Expr::Add(Box::new(m), Box::new(negative));
    let first = term_of(m);
    let second = term_of(negative);
    assert(second == (-first.0, first.1));
    let terms = seq![first, second];
    assert(terms_of(negative) == seq![second]);
    assert(terms_of(sum) =~= terms);
    assert(terms.drop_last() =~= seq![first]);
    lemma_merged_one(first);
    assert(seq![first].drop_first() =~= Seq::<Term>::empty());
    assert(merged(terms) =~= seq![(0int, first.1)]);
    lemma_nonzero_one((0int, first.1));
}

/// Collection of two monomials: for monomials `m1` and `m2` in canonical form,
/// without a sign and different from each other, the sum
/// `c1 * m1 + c2 * m1 + c3 * m2` collects to `(c1 + c2) * m1 + c3 * m2`, with
/// each term left out whose coefficient is zero; it fails with `Overflow`
/// exactly where one of the two coefficients is beyond what a number can hold.
pub proof fn lemma_collected_two_monomials(c1: int, c2: int, c3: int, m1: Expr, m2: Expr)
    requires
        canonical(m1) == m1,
        canonical(m2) == m2,
        !(m1 is Negative),
        !(m2 is Negative),
        m1 != m2,
    ensures
        collected(
            Expr::Add(
                Box::new(Expr::Mul(Box::new(Expr::of_int(c1)), Box::new(m1))),
                Box::new(
                    Expr::Add(
                        Box::new(Expr::Mul(Box::new(Expr::of_int(c2)), Box::new(m1))),
                        Box::new(Expr::Mul(Box::new(Expr::of_int(c3)), Box::new(m2))),
                    ),
                ),
            ),
        ) == if !(-0x7fff_ffff <= c1 + c2 <= 0x7fff_ffff) || !(-0x7fff_ffff <= c3 <= 0x7fff_ffff) {
            Err::<Expr, Failure>(Failure::Overflow)
        } else if c1 + c2 != 0 && c3 != 0 {
            Ok(Expr::Add(Box::new(scaled(c1 + c2, m1)), Box::new(scaled(c3, m2))))
        } else if c1 + c2 != 0 {
            Ok(scaled(c1 + c2, m1))
        } else if c3 != 0 {
            Ok(scaled(c3, m2))
        } else {
            Ok(Expr::zero())
        },
{
    let s1 = Expr::Mul(Box::new(Expr::of_int(c1)), Box::new(m1));
    let s2 = Expr::Mul(Box::new(Expr::of_int(c2)), Box::new(m1));
    let s3 = Expr::Mul(Box::new(Expr::of_int(c3)), Box::new(m2));
    let tail = Expr::Add(Box::new(s2), Box::new(s3));
    let sum = Expr::Add(Box::new(s1), Box::new(tail));
    lemma_literal_of_int(c1);
    lemma_literal_of_int(c2);
    lemma_literal_of_int(c3);
    let t1 = (c1, m1);
    let t2 = (c2, m1);
    let t3 = (c3, m2);
    assert(term_of(s1) == t1);
    assert(term_of(s2) == t2);
    assert(term_of(s3) == t3);
    assert(terms_of(s3) == seq![t3]);
    assert(terms_of(tail) =~= seq![t2, t3]);
    let terms = seq![t1, t2, t3];
    assert(terms_of(sum) =~= terms);
    assert(terms.drop_last() =~= seq![t1, t2]);
    assert(seq![t1, t2].drop_last() =~= seq![t1]);
    lemma_merged_one(t1);
    assert(seq![t1].drop_first() =~= Seq::<Term>::empty());
    let both = (c1 + c2, m1);
    assert(merged(seq![t1, t2]) =~= seq![both]);
    assert(seq![both].drop_first() =~= Seq::<Term>::empty());
    assert(absorb(Seq::<Term>::empty(), t3) =~= seq![t3]);
    assert(merged(terms) =~= seq![both, t3]);
    let all = seq![both, t3];
    assert(all.drop_first() =~= seq![t3]);
    lemma_nonzero_one(t3);
    let kept = nonzero(all);
    if c1 + c2 != 0 {
        if c3 != 0 {
            assert(kept =~= all);
            assert(kept[0] == both);
            assert(kept[1] == t3);
            assert(sum_of(seq![t3]) == scaled(c3, m2));
        } else {
            assert(kept =~= seq![both]);
            assert(kept[0] == both);
        }
    } else {
        if c3 != 0 {
            assert(kept =~= seq![t3]);
            assert(kept[0] == t3);
        } else {
            assert(kept =~= Seq::<Term>::empty());
        }
    }
}

/// The terms that coefficients and monomials, held side by side, stand for.
pub open spec fn model(coefficients: Seq<i128>, monomials: Seq<Value>) -> Seq<Term> {
    Seq::new(monomials.len(), |i: int| (coefficients[i] as int, monomials[i]@))
}

/// Splits a leading literal factor off a product.
fn factor_of(value: Value) -> (res: (i128, Value))
    ensures
        (res.0 as int, res.1@) == factor(value@),
        -0x8000_0000 <= res.0 <= 0x8000_0000,
{
    match value {
        Value::Mul(n, m) => match n.signed_literal() {
            Some(c) => (c as i128, *m),
            None => (1, Value::Mul(n, m)),
        },
        other => (1, other),
    }
}

/// The term of a summand.
fn term(summand: Value) -> (res: (i128, Value))
    ensures
        (res.0 as int, res.1@) == term_of(summand@),
        -0x8000_0000 <= res.0 <= 0x8000_0000,
{
    let (c, m) = match summand {
        Value::Negative(inner) => {
            let (c, m) = factor_of(*inner);
            (-c, m)
        },
        other => factor_of(other),
    };
    match standerdize(m) {
        Value::Negative(inner) => (-c, *inner),
        other => (c, other),
    }
}

/// Adds the term of `c` and `m` to the terms held in `coefficients` and
/// `monomials`.
fn absorb_term(
    coefficients: &mut Vec<i128>,
    monomials: &mut Vec<Value>,
    c: i128,
    m: &Value,
    count: usize,
)
    requires
        old(coefficients)@.len() == old(monomials)@.len(),
        -0x8000_0000 <= c <= 0x8000_0000,
        forall|j: int|
            0 <= j < old(coefficients)@.len() ==> -0x8000_0000 * count <= (
            #[trigger] old(coefficients)@[j]) <= 0x8000_0000 * count,
    ensures
        final(coefficients)@.len() == final(monomials)@.len(),
        model(final(coefficients)@, final(monomials)@) == absorb(
            model(old(coefficients)@, old(monomials)@),
            (c as int, m@),
        ),
        forall|j: int|
            0 <= j < final(coefficients)@.len() ==> -0x8000_0000 * (count + 1) <= (
            #[trigger] final(coefficients)@[j]) <= 0x8000_0000 * (count + 1),
{
    let ghost terms = model(coefficients@, monomials@);
    let mut j: usize = 0;
    while j < monomials.len()
        invariant
            j <= monomials@.len(),
            coefficients@.len() == monomials@.len(),
            terms == model(coefficients@, monomials@),
            coefficients@ == old(coefficients)@,
            monomials@ == old(monomials)@,
            forall|k: int| 0 <= k < j ==> (#[trigger] terms[k]).1 != m@,
            -0x8000_0000 <= c <= 0x8000_0000,
            forall|k: int|
                0 <= k < coefficients@.len() ==> -0x8000_0000 * count <= (
                #[trigger] coefficients@[k]) <= 0x8000_0000 * count,
        decreases monomials@.len() - j,
    {
        if monomials[j] == *m {
            let sum: i128 = coefficients[j] + c;
            coefficients.set(j, sum);
            proof {
                lemma_absorb_found(terms, (c as int, m@), j as int);
                assert(model(coefficients@, monomials@) =~= terms.update(
                    j as int,
                    (terms[j as int].0 + c, terms[j as int].1),
                ));
            }
            return ;
        }
        j += 1;
    }
    coefficients.push(c);
    monomials.push(m.clone());
    proof {
        lemma_absorb_new(terms, (c as int, m@));
        assert(model(coefficients@, monomials@) =~= terms.push((c as int, m@)));
    }
}

/// Writes a monomial with a coefficient that is not zero.
fn scale(c: i32, m: Value) -> (res: Value)
    requires
        c != 0,
        c > i32::MIN,
    ensures
        res@ == scaled(c as int, m@),
{
    proof {
        reveal_with_fuel(Value::expr, 3);
    }
    if c == 1 {
        m
    } else if c == -1 {
        Value::Negative(Box::new(m))
    } else if c > 0 {
        Value::Mul(Box::new(Value::Number(c)), Box::new(m))
    } else {
        Value::Negative(Box::new(Value::Mul(Box::new(Value::Number(-c)), Box::new(m))))
    }
}

/// Collects the terms of the sum `value`.
///
/// Each summand is read as a coefficient and a monomial, the monomial is
/// brought to canonical form, terms with equal monomials are merged where the
/// monomial stood first, and terms with coefficient zero are left out. The
/// result is the sum of what stays, or zero where nothing stays. Fails with
/// `Overflow` where a coefficient that stays is beyond what a number can hold.
pub fn is_lots_of_es_zero(value: Value) -> (res: Result<Value, Error>)
    ensures
        agrees(res, collected(value@)),
        value@.unsigned() ==> (res matches Ok(sum) ==> sum@.unsigned()),
{
    let ghost whole = value@;
    proof {
        if whole.unsigned() {
            lemma_collected_unsigned(whole);
        }
    }
    let mut read_coefficients: Vec<i128> = Vec::new();
    let mut read_monomials: Vec<Value> = Vec::new();
    let mut rest = value;
    assert(model(read_coefficients@, read_monomials@) + terms_of(rest@) =~= terms_of(whole));
    loop
        invariant_except_break
            model(read_coefficients@, read_monomials@) + terms_of(rest@) == terms_of(whole),
        invariant
            read_coefficients@.len() == read_monomials@.len(),
            forall|j: int|
                0 <= j < read_coefficients@.len() ==> -0x8000_0000 <= (
                #[trigger] read_coefficients@[j]) <= 0x8000_0000,
        ensures
            model(read_coefficients@, read_monomials@) == terms_of(whole),
        decreases rest@.size(),
    {
        let ghost before = model(read_coefficients@, read_monomials@);
        match rest {
            Value::Add(a, b) => {
                let ghost head = term_of(a@);
                let (c, m) = term(*a);
                read_coefficients.push(c);
                read_monomials.push(m);
                rest = *b;
                assert(model(read_coefficients@, read_monomials@) =~= before.push(head));
                assert(before.push(head) + terms_of(rest@) =~= before + (seq![head] + terms_of(
                    rest@,
                )));
            },
            other => {
                let ghost head = term_of(other@);
                let (c, m) = term(other);
                read_coefficients.push(c);
                read_monomials.push(m);
                assert(model(read_coefficients@, read_monomials@) =~= before.push(head));
                assert(before.push(head) =~= before + seq![head]);
                break ;
            },
        }
    }
    let ghost read = model(read_coefficients@, read_monomials@);
    let mut coefficients: Vec<i128> = Vec::new();
    let mut monomials: Vec<Value> = Vec::new();
    let mut i: usize = 0;
    assert(read.take(0) =~= Seq::<Term>::empty());
    while i < read_monomials.len()
        invariant
            i <= read_monomials@.len(),
            read_coefficients@.len() == read_monomials@.len(),
            read == model(read_coefficients@, read_monomials@),
            coefficients@.len() == monomials@.len(),
            model(coefficients@, monomials@) == merged(read.take(i as int)),
            forall|j: int|
                0 <= j < read_coefficients@.len() ==> -0x8000_0000 <= (
                #[trigger] read_coefficients@[j]) <= 0x8000_0000,
            forall|j: int|
                0 <= j < coefficients@.len() ==> -0x8000_0000 * i <= (#[trigger] coefficients@[j])
                    <= 0x8000_0000 * i,
        decreases read_monomials@.len() - i,
    {
        absorb_term(&mut coefficients, &mut monomials, read_coefficients[i], &read_monomials[i], i);
        proof {
            let next = read.take(i + 1);
            assert(next.drop_last() =~= read.take(i as int));
            assert(next.last() == read[i as int]);
        }
        i += 1;
    }
    assert(read.take(i as int) =~= read);
    let ghost terms = model(coefficients@, monomials@);
    assert(terms == merged(terms_of(whole)));
    let mut sum: Option<Value> = None;
    let mut k: usize = monomials.len();
    assert(terms.subrange(k as int, terms.len() as int) =~= Seq::<Term>::empty());
    while k > 0
        invariant
            k <= monomials@.len(),
            coefficients@.len() == monomials@.len(),
            terms == model(coefficients@, monomials@),
            terms == merged(terms_of(whole)),
            whole == value@,
            fits(nonzero(terms.subrange(k as int, terms.len() as int))),
            match sum {
                Some(value) => nonzero(terms.subrange(k as int, terms.len() as int)).len() > 0
                    && value@ == sum_of(nonzero(terms.subrange(k as int, terms.len() as int))),
                None => nonzero(terms.subrange(k as int, terms.len() as int)).len() == 0,
            },
        decreases k,
    {
        k -= 1;
        let c = coefficients[k];
        let ghost tail = terms.subrange(k + 1, terms.len() as int);
        let ghost suffix = terms.subrange(k as int, terms.len() as int);
        assert(suffix.drop_first() =~= tail);
        assert(suffix[0] == terms[k as int]);
        if c != 0 {
            let ghost kept = nonzero(suffix);
            assert(kept == seq![suffix[0]] + nonzero(tail));
            assert(kept[0] == suffix[0]);
            assert(kept.drop_first() =~= nonzero(tail));
            if c < -0x7fff_ffff || c > 0x7fff_ffff {
                proof {
                    lemma_nonzero_suffix(terms, k as int);
                    assert(!fits(nonzero(terms)));
                }
                return Err(Error::Overflow);
            }
            assert forall|j: int| 0 <= j < kept.len() implies -0x7fff_ffff <= (#[trigger] kept[j]).0
                <= 0x7fff_ffff by {
                if j > 0 {
                    assert(kept[j] == nonzero(tail)[j - 1]);
                }
            }
            let written = scale(c as i32, monomials[k].clone());
            sum = match sum {
                Some(value) => Some(Value::Add(Box::new(written), Box::new(value))),
                None => Some(written),
            };
        }
    }
    assert(terms.subrange(0, terms.len() as int) =~= terms);
    match sum {
        Some(value) => Ok(value),
        None => Ok(Value::zero()),
    }
}

/// A term that stays in a tail of the terms stays in the whole.
proof fn lemma_nonzero_suffix(terms: Seq<Term>, k: int)
    requires
        0 <= k < terms.len(),
        terms[k].0 != 0,
    ensures
        exists|j: int| 0 <= j < nonzero(terms).len() && nonzero(terms)[j] == terms[k],
    decreases k,
{
    let rest = terms.drop_first();
    if k == 0 {
        assert(nonzero(terms)[0] == terms[0]);
    } else {
        assert(rest[k - 1] == terms[k]);
        lemma_nonzero_suffix(rest, k - 1);
        let j = choose|j: int| 0 <= j < nonzero(rest).len() && nonzero(rest)[j] == terms[k];
        if terms[0].0 != 0 {
            assert(nonzero(terms)[j + 1] == nonzero(rest)[j]);
        } else {
            assert(nonzero(terms)[j] == nonzero(rest)[j]);
        }
    }
}

} // verus!
