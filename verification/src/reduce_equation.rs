//! From the terms of both sides to one coefficient per degree.
use std::collections::HashMap;
use vstd::prelude::*;
use crate::term::{Coefficient, Term};

verus! {

/// The map with one more term taken in: the term's coefficient is added
/// to the one that the map holds for the term's degree, or to zero where
/// it holds none. A term of the right side counts with its sign changed.
pub open spec fn merged(m: Map<i64, Term>, term: Term, is_right: bool) -> Map<i64, Term> {
    let before = if m.dom().contains(term.degree) {
        m[term.degree]
    } else {
        Term { coefficient: Coefficient::NumInt(0), degree: term.degree }
    };
    let add_value = if is_right {
        term.coefficient.negated()
    } else {
        term.coefficient
    };
    m.insert(term.degree, Term { coefficient: before.coefficient.sum(add_value), ..before })
}

/// The map with a sequence of terms taken in, one after the other.
pub open spec fn merged_all(m: Map<i64, Term>, terms: Seq<Term>, is_right: bool) -> Map<
    i64,
    Term,
>
    decreases terms.len(),
{
    if terms.len() == 0 {
        m
    } else {
        merged_all(merged(m, terms[0], is_right), terms.drop_first(), is_right)
    }
}

/// The equation `left - right = 0`, as the map from each degree that
/// occurs in it to the term of that degree.
pub open spec fn reduced(left: Seq<Term>, right: Seq<Term>) -> Map<i64, Term> {
    merged_all(merged_all(Map::empty(), left, false), right, true)
}

/// Whether each term of the map stands under its own degree.
pub open spec fn keyed_by_degree(m: Map<i64, Term>) -> bool {
    forall|k: i64| m.dom().contains(k) ==> (#[trigger] m[k]).degree == k
}

/// Taking terms in keeps each term of the map under its own degree.
proof fn lemma_merged_all_keyed(m: Map<i64, Term>, terms: Seq<Term>, is_right: bool)
    requires
        keyed_by_degree(m),
    ensures
        keyed_by_degree(merged_all(m, terms, is_right)),
    decreases terms.len(),
{
    if terms.len() > 0 {
        lemma_merged_all_keyed(merged(m, terms[0], is_right), terms.drop_first(), is_right);
    }
}

/// In a reduced equation each term stands under its own degree.
pub proof fn lemma_reduced_keyed(left: Seq<Term>, right: Seq<Term>)
    ensures
        keyed_by_degree(reduced(left, right)),
{
    lemma_merged_all_keyed(Map::empty(), left, false);
    lemma_merged_all_keyed(merged_all(Map::empty(), left, false), right, true);
}

/// Takes one term into the map.
fn update_terms_coefficient(terms: &mut HashMap<i64, Term>, term: &Term, is_right: bool)
    ensures
        final(terms)@ == merged(old(terms)@, *term, is_right),
{
    broadcast use vstd::std_specs::hash::group_hash_axioms;

    let value = terms.entry(term.degree).or_insert(
        Term { coefficient: Coefficient::NumInt(0), degree: term.degree },
    );
    let add_value = if is_right {
        term.coefficient.mul_minus()
    } else {
        term.coefficient.clone()
    };
    value.coefficient = value.coefficient.add(&add_value);
}

/// Brings the two sides of an equation to one: every term of the left
/// side is added to, every term of the right side taken from, the
/// coefficient of its degree.
pub fn reduce_equation(left_terms: &Vec<Term>, right_terms: &Vec<Term>) -> (r: HashMap<i64, Term>)
    ensures
        r@ == reduced(left_terms@, right_terms@),
        keyed_by_degree(r@),
{
    proof {
        lemma_reduced_keyed(left_terms@, right_terms@);
    }
    let mut terms = HashMap::new();
    assert(left_terms@.skip(0) == left_terms@);
    for i in 0..left_terms.len()
        invariant
            merged_all(terms@, left_terms@.skip(i as int), false) == merged_all(
                Map::empty(),
                left_terms@,
                false,
            ),
    {
        assert(left_terms@.skip(i as int).drop_first() == left_terms@.skip(i + 1));
        update_terms_coefficient(&mut terms, &left_terms[i], false);
    }
    assert(right_terms@.skip(0) == right_terms@);
    for i in 0..right_terms.len()
        invariant
            merged_all(terms@, right_terms@.skip(i as int), true) == reduced(
                left_terms@,
                right_terms@,
            ),
    {
        assert(right_terms@.skip(i as int).drop_first() == right_terms@.skip(i + 1));
        update_terms_coefficient(&mut terms, &right_terms[i], true);
    }
    terms
}

} // verus!
