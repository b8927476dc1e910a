//! The reduced equation in order of degree: as a list, as text, and its degree.
use std::collections::HashMap;
use vstd::prelude::*;
use crate::reduce_equation::keyed_by_degree;
use crate::term::{Approx, Coefficient, Term};
use crate::text::{decimal, digits, parts, push_integer, push_natural, Part, Piece};

verus! {

/// Whether the terms stand in order of degree, the lowest first.
pub open spec fn ascending(terms: Seq<Term>) -> bool {
    forall|i: int, j: int| 0 <= i < j < terms.len() ==> terms[i].degree <= terms[j].degree
}

/// Whether `terms` lists the values of the map, each key's value once:
/// `keys` names the key of each place.
pub open spec fn lists(m: Map<i64, Term>, keys: Seq<i64>, terms: Seq<Term>) -> bool {
    &&& keys.no_duplicates()
    &&& keys.to_set() == m.dom()
    &&& terms.len() == keys.len()
    &&& forall|i: int| 0 <= i < keys.len() ==> terms[i] == m[#[trigger] keys[i]]
}

/// Whether the numbers stand in order, each above the one before.
pub open spec fn increasing(keys: Seq<i64>) -> bool {
    forall|i: int, j: int| 0 <= i < j < keys.len() ==> keys[i] < keys[j]
}

/// Two increasing sequences of the same numbers are the same sequence.
proof fn lemma_increasing_unique(a: Seq<i64>, b: Seq<i64>)
    requires
        increasing(a),
        increasing(b),
        a.to_set() == b.to_set(),
    ensures
        a == b,
    decreases a.len(),
{
    if a.len() == 0 {
        if b.len() > 0 {
            assert(b.to_set().contains(b[0]));
            assert(a.contains(b[0]));
        }
        assert(a == b);
    } else {
        assert(a.to_set().contains(a.last()));
        assert(b.contains(a.last()));
        let j = choose|j: int| 0 <= j < b.len() && b[j] == a.last();
        assert(b.to_set().contains(b.last()));
        assert(a.contains(b.last()));
        let i = choose|i: int| 0 <= i < a.len() && a[i] == b.last();
        assert(j == b.len() - 1);
        assert forall|k: i64| a.drop_last().to_set().contains(k) == b.drop_last().to_set().contains(
            k,
        ) by {
            if a.drop_last().contains(k) {
                let n = choose|n: int| 0 <= n < a.drop_last().len() && a.drop_last()[n] == k;
                assert(a[n] == k);
                assert(a.to_set().contains(k));
                assert(b.contains(k));
                let m = choose|m: int| 0 <= m < b.len() && b[m] == k;
                assert(b.drop_last()[m] == k);
            }
            if b.drop_last().contains(k) {
                let n = choose|n: int| 0 <= n < b.drop_last().len() && b.drop_last()[n] == k;
                assert(b[n] == k);
                assert(b.to_set().contains(k));
                assert(a.contains(k));
                let m = choose|m: int| 0 <= m < a.len() && a[m] == k;
                assert(a.drop_last()[m] == k);
            }
        }
        assert(a.drop_last().to_set() =~= b.drop_last().to_set());
        lemma_increasing_unique(a.drop_last(), b.drop_last());
        assert(a == a.drop_last().push(a.last()));
        assert(b == b.drop_last().push(b.last()));
    }
}

/// A map whose terms stand each under its own degree has one list of
/// its terms in order of degree, and no other.
pub proof fn lemma_listing_unique(
    m: Map<i64, Term>,
    keys1: Seq<i64>,
    terms1: Seq<Term>,
    keys2: Seq<i64>,
    terms2: Seq<Term>,
)
    requires
        keyed_by_degree(m),
        lists(m, keys1, terms1),
        ascending(terms1),
        lists(m, keys2, terms2),
        ascending(terms2),
    ensures
        terms1 == terms2,
{
    lemma_listing_increasing(m, keys1, terms1);
    lemma_listing_increasing(m, keys2, terms2);
    lemma_increasing_unique(keys1, keys2);
    assert(terms1 =~= terms2);
}

/// In the list of such a map the keys are the degrees, which increase.
proof fn lemma_listing_increasing(m: Map<i64, Term>, keys: Seq<i64>, terms: Seq<Term>)
    requires
        keyed_by_degree(m),
        lists(m, keys, terms),
        ascending(terms),
    ensures
        increasing(keys),
        forall|i: int| 0 <= i < keys.len() ==> (#[trigger] terms[i]).degree == keys[i],
{
    assert forall|i: int| 0 <= i < keys.len() implies (#[trigger] terms[i]).degree == keys[i] by {
        assert(keys.to_set().contains(keys[i]));
        assert(m.dom().contains(keys[i]));
        assert(terms[i] == m[keys[i]]);
    }
    assert forall|i: int, j: int| 0 <= i < j < keys.len() implies keys[i] < keys[j] by {
        assert(terms[i].degree <= terms[j].degree);
        assert(keys[i] != keys[j]);
    }
}

/// Whether the key `k` is met in the walk over a map from place `from` up to place `to`.
spec fn walked<'a>(walk: Seq<(&'a i64, &'a Term)>, from: int, to: int, k: i64) -> bool {
    exists|i: int| from <= i < to && *(#[trigger] walk[i]).0 == k
}

/// Puts `term` behind the last term of `vec` whose degree is not above its own.
fn insert_by_degree(vec: &mut Vec<Term>, term: Term) -> (at: usize)
    requires
        ascending(old(vec)@),
    ensures
        at <= old(vec)@.len(),
        final(vec)@ == old(vec)@.insert(at as int, term),
        ascending(final(vec)@),
{
    let mut at: usize = vec.len();
    while at > 0 && vec[at - 1].degree > term.degree
        invariant
            at <= vec.len(),
            *vec == *old(vec),
            forall|j: int| at <= j < vec.len() ==> vec[j].degree > term.degree,
        decreases at,
    {
        at -= 1;
    }
    vec.insert(at, term);
    at
}

/// The terms of the map in order of degree, the lowest first.
pub fn hash_terms_to_sorted_vec(terms: HashMap<i64, Term>) -> (r: Vec<Term>)
    ensures
        ascending(r@),
        exists|keys: Seq<i64>| lists(terms@, keys, r@),
{
    broadcast use vstd::std_specs::hash::group_hash_axioms;

    let mut vec: Vec<Term> = Vec::new();
    let ghost mut keys: Seq<i64> = Seq::empty();
    for pair in it: terms.iter()
        invariant
            it.seq().no_duplicates(),
            it.seq().len() == terms@.dom().len(),
            forall|i: int|
                0 <= i < it.seq().len() ==> terms@.contains_key(*(#[trigger] it.seq()[i]).0)
                    && terms@[*it.seq()[i].0] == *it.seq()[i].1,
            forall|k: i64| #[trigger]
                terms@.contains_key(k) ==> keys.contains(k) || walked(
                    it.seq(),
                    it.index() as int,
                    it.seq().len() as int,
                    k,
                ),
            keys.len() == vec.len(),
            keys.no_duplicates(),
            forall|j: int|
                0 <= j < keys.len() ==> terms@.contains_key(#[trigger] keys[j]) && vec[j]
                    == terms@[keys[j]],
            forall|j: int|
                0 <= j < keys.len() ==> walked(it.seq(), 0, it.index() as int, #[trigger] keys[j]),
            ascending(vec@),
    {
        let (degree, term) = pair;
        let ghost n = it.index() as int;
        let ghost before = keys;
        assert(it.seq()[n] == pair);
        assert(terms@.contains_key(*degree) && terms@[*degree] == *term);
        assert(!before.contains(*degree)) by {
            if before.contains(*degree) {
                let j = choose|j: int| 0 <= j < before.len() && before[j] == *degree;
                assert(walked(it.seq(), 0, n, before[j]));
                let i = choose|i: int| 0 <= i < n && *(#[trigger] it.seq()[i]).0 == before[j];
                assert(*it.seq()[i].1 == terms@[*degree]);
                assert(it.seq()[i] == it.seq()[n]);
            }
        }
        let at = insert_by_degree(&mut vec, term.clone());
        proof {
            keys = before.insert(at as int, *degree);
            assert forall|a: int, b: int|
                0 <= a < keys.len() && 0 <= b < keys.len() && a != b implies keys[a] != keys[b] by {
                if a != at && b != at {
                    let a0 = if a < at { a } else { a - 1 };
                    let b0 = if b < at { b } else { b - 1 };
                    assert(keys[a] == before[a0] && keys[b] == before[b0]);
                } else if a == at {
                    let b0 = if b < at { b } else { b - 1 };
                    assert(keys[b] == before[b0]);
                } else {
                    let a0 = if a < at { a } else { a - 1 };
                    assert(keys[a] == before[a0]);
                }
            }
            assert forall|j: int| 0 <= j < keys.len() implies walked(
                it.seq(),
                0,
                n + 1,
                #[trigger] keys[j],
            ) by {
                if j == at {
                    assert(*it.seq()[n].0 == keys[j]);
                } else {
                    let j0 = if j < at { j } else { j - 1 };
                    assert(keys[j] == before[j0]);
                    assert(walked(it.seq(), 0, n, before[j0]));
                    let i = choose|i: int| 0 <= i < n && *(#[trigger] it.seq()[i]).0 == before[j0];
                    assert(*it.seq()[i].0 == keys[j]);
                }
            }
            assert forall|k: i64| #[trigger] terms@.contains_key(k) implies keys.contains(k)
                || walked(it.seq(), n + 1, it.seq().len() as int, k) by {
                if before.contains(k) {
                    let j0 = choose|j0: int| 0 <= j0 < before.len() && before[j0] == k;
                    let j = if j0 < at { j0 } else { j0 + 1 };
                    assert(keys[j] == before[j0]);
                } else {
                    assert(walked(it.seq(), n, it.seq().len() as int, k));
                    let i = choose|i: int|
                        n <= i < it.seq().len() && *(#[trigger] it.seq()[i]).0 == k;
                    if i == n {
                        assert(keys[at as int] == k);
                    } else {
                        assert(*it.seq()[i].0 == k);
                    }
                }
            }
            assert forall|j: int| 0 <= j < keys.len() implies terms@.contains_key(
                #[trigger] keys[j],
            ) && vec[j] == terms@[keys[j]] by {
                if j != at {
                    let j0 = if j < at { j } else { j - 1 };
                    assert(keys[j] == before[j0]);
                }
            }
        }
    }
    proof {
        assert(keys.to_set() =~= terms@.dom()) by {
            assert forall|k: i64| terms@.dom().contains(k) implies keys.to_set().contains(k) by {
                assert(terms@.contains_key(k));
            }
            assert forall|k: i64| keys.to_set().contains(k) implies terms@.dom().contains(k) by {
                let j = choose|j: int| 0 <= j < keys.len() && keys[j] == k;
                assert(terms@.contains_key(keys[j]));
            }
        }
        assert(lists(terms@, keys, vec@));
    }
    vec
}

/// Whether the coefficient of every term is settled.
pub open spec fn all_settled(terms: Seq<Term>) -> bool {
    forall|i: int| 0 <= i < terms.len() ==> (#[trigger] terms[i]).coefficient.settled()
}

/// Whether the coefficient of every term is settled.
pub fn check_all_settled_terms(terms: &Vec<Term>) -> (r: bool)
    ensures
        r == all_settled(terms@),
{
    for n in 0..terms.len()
        invariant
            forall|i: int| 0 <= i < n ==> (#[trigger] terms[i]).coefficient.settled(),
    {
        if !terms[n].coefficient.is_settled() {
            return false;
        }
    }
    true
}

/// ` * X^d `, which follows the coefficient of a term of degree `d`.
pub open spec fn power_text(degree: i64) -> Seq<char> {
    " * X^"@ + decimal(degree as int) + " "@
}

/// One term of the reduced form. A coefficient below zero is written as
/// `- ` and its absolute value; any other as `+ ` and its value, without
/// the `+ ` where the term is the first.
pub open spec fn term_parts(term: Term, first: bool) -> Seq<Part> {
    match term.coefficient {
        Coefficient::NumInt(n) => seq![
            Part::Text(
                (if n < 0 {
                    "- "@ + digits((-n) as nat)
                } else if first {
                    decimal(n as int)
                } else {
                    "+ "@ + decimal(n as int)
                }) + power_text(term.degree),
            ),
        ],
        Coefficient::NumFloat(x) => {
            if term.coefficient.negative() {
                seq![
                    Part::Text("- "@),
                    Part::Number(Approx::Negation(Box::new(x))),
                    Part::Text(power_text(term.degree)),
                ]
            } else if first {
                seq![Part::Number(x), Part::Text(power_text(term.degree))]
            } else {
                seq![Part::Text("+ "@), Part::Number(x), Part::Text(power_text(term.degree))]
            }
        },
    }
}

/// The terms of the reduced form, one after the other.
pub open spec fn terms_parts(terms: Seq<Term>) -> Seq<Part>
    decreases terms.len(),
{
    if terms.len() == 0 {
        Seq::empty()
    } else {
        terms_parts(terms.drop_last()) + term_parts(terms.last(), terms.len() == 1)
    }
}

/// The reduced form of an equation: its terms and `= 0`, and `0 = 0`
/// where it has no term.
pub open spec fn reduced_form(terms: Seq<Term>) -> Seq<Part> {
    if terms.len() == 0 {
        seq![Part::Text("0 "@), Part::Text("= 0"@)]
    } else {
        terms_parts(terms).push(Part::Text("= 0"@))
    }
}

/// Appends ` * X^d `.
fn push_power(text: &mut String, degree: i64)
    ensures
        final(text)@ == old(text)@ + power_text(degree),
{
    text.append(" * X^");
    push_integer(text, degree);
    text.append(" ");
}

/// The reduced form of an equation whose terms are given in order.
pub fn make_reduced_form_string(terms: &Vec<Term>) -> (r: Vec<Piece>)
    requires
        all_settled(terms@),
    ensures
        parts(r@) == reduced_form(terms@),
{
    let mut pieces: Vec<Piece> = Vec::new();
    assert(terms@.take(0) == Seq::<Term>::empty());
    for i in 0..terms.len()
        invariant
            all_settled(terms@),
            parts(pieces@) == terms_parts(terms@.take(i as int)),
    {
        let term = &terms[i];
        let ghost before = parts(pieces@);
        assert(terms@.take(i + 1).drop_last() == terms@.take(i as int));
        assert(terms@.take(i + 1).last() == *term);
        match &term.coefficient {
            Coefficient::NumInt(n) => {
                let mut text = String::new();
                if *n < 0 {
                    text.append("- ");
                    push_natural(&mut text, (-(*n + 1)) as u64 + 1);
                } else if i == 0 {
                    push_integer(&mut text, *n);
                } else {
                    text.append("+ ");
                    push_integer(&mut text, *n);
                }
                push_power(&mut text, term.degree);
                pieces.push(Piece::Text(text));
            },
            Coefficient::NumFloat(x) => {
                if term.coefficient.is_minus() {
                    pieces.push(Piece::Text(String::from_str("- ")));
                    pieces.push(Piece::Number(Approx::Negation(Box::new(x.clone()))));
                } else if i == 0 {
                    pieces.push(Piece::Number(x.clone()));
                } else {
                    pieces.push(Piece::Text(String::from_str("+ ")));
                    pieces.push(Piece::Number(x.clone()));
                }
                let mut text = String::new();
                push_power(&mut text, term.degree);
                pieces.push(Piece::Text(text));
            },
        }
        assert(parts(pieces@) == before + term_parts(*term, i == 0));
    }
    assert(terms@.take(terms@.len() as int) == terms@);
    if pieces.len() == 0 {
        pieces.push(Piece::Text(String::from_str("0 ")));
    }
    pieces.push(Piece::Text(String::from_str("= 0")));
    pieces
}

/// The degree of an equation: the highest degree of a term whose
/// coefficient is not zero, and `0` where there is no such term above it.
pub fn evaluate_degree_of_terms(terms: &Vec<Term>) -> (degree: i64)
    requires
        all_settled(terms@),
    ensures
        degree >= 0,
        forall|i: int|
            0 <= i < terms.len() && !(#[trigger] terms[i]).coefficient.zero() ==> terms[i].degree
                <= degree,
        degree == 0 || exists|i: int|
            0 <= i < terms.len() && !(#[trigger] terms[i]).coefficient.zero() && terms[i].degree
                == degree,
{
    let mut degree: i64 = 0;
    for n in 0..terms.len()
        invariant
            all_settled(terms@),
            degree >= 0,
            forall|i: int|
                0 <= i < n && !(#[trigger] terms[i]).coefficient.zero() ==> terms[i].degree
                    <= degree,
            degree == 0 || exists|i: int|
                0 <= i < n && !(#[trigger] terms[i]).coefficient.zero() && terms[i].degree
                    == degree,
    {
        if !terms[n].coefficient.is_zero() {
            if terms[n].degree > degree {
                degree = terms[n].degree;
            }
        }
    }
    degree
}

} // verus!
