//! The order of names, in which the entries of a directory are visited.

use crate::text::{chars_of, texts};
use vstd::prelude::*;
use vstd::relations::{sorted_by, total_ordering};
use vstd::seq_lib::{lemma_sorted_unique, to_multiset_insert};

verus! {

/// `a` comes before `b` or equals it, going by the characters from position
/// `from` on: the first position at which the two differ decides, and a text
/// that ends first comes first.
pub open spec fn precedes_from(a: Seq<char>, b: Seq<char>, from: int) -> bool
    decreases a.len() - from,
{
    if from < 0 || from >= a.len() {
        true
    } else if from >= b.len() {
        false
    } else if a[from] != b[from] {
        a[from] < b[from]
    } else {
        precedes_from(a, b, from + 1)
    }
}

/// `a` comes before `b` or equals it in the order of names.
pub open spec fn precedes(a: Seq<char>, b: Seq<char>) -> bool {
    precedes_from(a, b, 0)
}

/// Each name comes before the ones behind it, or equals them.
pub open spec fn in_name_order(names: Seq<Seq<char>>) -> bool {
    forall|i: int, j: int| 0 <= i < j < names.len() ==> precedes(#[trigger] names[i], #[trigger] names[j])
}

/// Where `name` goes into `sorted`: behind the last entry that comes before
/// it or equals it.
pub open spec fn insert_at(sorted: Seq<Seq<char>>, name: Seq<char>) -> int
    decreases sorted.len(),
{
    if sorted.len() == 0 {
        0
    } else if precedes(sorted.last(), name) {
        sorted.len() as int
    } else {
        insert_at(sorted.drop_last(), name)
    }
}

/// The names in the order of names, each one put in its place in turn.
pub open spec fn sorted_names(names: Seq<Seq<char>>) -> Seq<Seq<char>>
    decreases names.len(),
{
    if names.len() == 0 {
        Seq::empty()
    } else {
        let before = sorted_names(names.drop_last());
        before.insert(insert_at(before, names.last()), names.last())
    }
}

/// The order of names as a relation.
pub open spec fn name_order() -> spec_fn(Seq<char>, Seq<char>) -> bool {
    |a: Seq<char>, b: Seq<char>| precedes(a, b)
}

/// Of two names one comes before the other or equals it.
pub proof fn lemma_precedes_total(a: Seq<char>, b: Seq<char>, from: int)
    requires
        0 <= from,
    ensures
        precedes_from(a, b, from) || precedes_from(b, a, from),
    decreases a.len() - from,
{
    if from < a.len() && from < b.len() {
        if a[from] == b[from] {
            lemma_precedes_total(a, b, from + 1);
        }
    }
}

/// What comes before a name also comes before every name behind that one.
pub proof fn lemma_precedes_transitive(a: Seq<char>, b: Seq<char>, c: Seq<char>, from: int)
    requires
        0 <= from,
        precedes_from(a, b, from),
        precedes_from(b, c, from),
    ensures
        precedes_from(a, c, from),
    decreases a.len() - from,
{
    if from < a.len() && a[from] == b[from] && b[from] == c[from] {
        lemma_precedes_transitive(a, b, c, from + 1);
    }
}

/// Two names that each come before the other agree from `from` on.
pub proof fn lemma_precedes_antisymmetric(a: Seq<char>, b: Seq<char>, from: int)
    requires
        0 <= from <= a.len(),
        from <= b.len(),
        precedes_from(a, b, from),
        precedes_from(b, a, from),
    ensures
        a.subrange(from, a.len() as int) == b.subrange(from, b.len() as int),
    decreases a.len() - from,
{
    if from < a.len() {
        lemma_precedes_antisymmetric(a, b, from + 1);
        assert(a.subrange(from, a.len() as int) =~= seq![a[from]] + a.subrange(
            from + 1,
            a.len() as int,
        ));
        assert(b.subrange(from, b.len() as int) =~= seq![b[from]] + b.subrange(
            from + 1,
            b.len() as int,
        ));
    } else {
        assert(a.subrange(from, a.len() as int) =~= b.subrange(from, b.len() as int));
    }
}

/// The order of names is a total order.
pub proof fn lemma_name_order_total()
    ensures
        total_ordering(name_order()),
{
    let r = name_order();
    assert forall|a: Seq<char>| #[trigger] r(a, a) by {
        lemma_precedes_total(a, a, 0);
    }
    assert forall|a: Seq<char>, b: Seq<char>| #[trigger] r(a, b) && #[trigger] r(b, a) implies a
        == b by {
        lemma_precedes_antisymmetric(a, b, 0);
        assert(a.subrange(0, a.len() as int) == a);
        assert(b.subrange(0, b.len() as int) == b);
    }
    assert forall|a: Seq<char>, b: Seq<char>, c: Seq<char>| #[trigger] r(a, b) && #[trigger] r(
        b,
        c,
    ) implies r(a, c) by {
        lemma_precedes_transitive(a, b, c, 0);
    }
    assert forall|a: Seq<char>, b: Seq<char>| #[trigger] r(a, b) || #[trigger] r(b, a) by {
        lemma_precedes_total(a, b, 0);
    }
}

/// A name is put behind every entry that comes before it or equals it, and
/// before every entry that does not.
pub proof fn lemma_insert_at(sorted: Seq<Seq<char>>, name: Seq<char>)
    requires
        in_name_order(sorted),
    ensures
        0 <= insert_at(sorted, name) <= sorted.len(),
        forall|k: int| 0 <= k < insert_at(sorted, name) ==> precedes(#[trigger] sorted[k], name),
        forall|k: int|
            insert_at(sorted, name) <= k < sorted.len() ==> precedes(name, #[trigger] sorted[k]),
    decreases sorted.len(),
{
    if sorted.len() > 0 {
        let last = sorted.last();
        if precedes(last, name) {
            assert forall|k: int| 0 <= k < sorted.len() implies precedes(
                #[trigger] sorted[k],
                name,
            ) by {
                if k < sorted.len() - 1 {
                    assert(precedes(sorted[k], sorted[sorted.len() - 1]));
                    lemma_precedes_transitive(sorted[k], last, name, 0);
                }
            }
        } else {
            let front = sorted.drop_last();
            assert forall|i: int, j: int| 0 <= i < j < front.len() implies precedes(
                #[trigger] front[i],
                #[trigger] front[j],
            ) by {
                assert(precedes(sorted[i], sorted[j]));
            }
            lemma_insert_at(front, name);
            lemma_precedes_total(last, name, 0);
            assert forall|k: int| insert_at(sorted, name) <= k < sorted.len() implies precedes(
                name,
                #[trigger] sorted[k],
            ) by {
                if k < sorted.len() - 1 {
                    assert(sorted[k] == front[k]);
                }
            }
            assert forall|k: int| 0 <= k < insert_at(sorted, name) implies precedes(
                #[trigger] sorted[k],
                name,
            ) by {
                assert(sorted[k] == front[k]);
            }
        }
    }
}

/// The sorted names are in the order of names, and they are the given names:
/// each occurs as often as it was given.
pub proof fn lemma_sorted_names(names: Seq<Seq<char>>)
    ensures
        in_name_order(sorted_names(names)),
        sorted_names(names).to_multiset() == names.to_multiset(),
        sorted_names(names).len() == names.len(),
    decreases names.len(),
{
    if names.len() == 0 {
        assert(names =~= Seq::empty());
    } else {
        let front = names.drop_last();
        let name = names.last();
        let before = sorted_names(front);
        lemma_sorted_names(front);
        lemma_insert_at(before, name);
        let at = insert_at(before, name);
        let after = before.insert(at, name);
        assert forall|i: int, j: int| 0 <= i < j < after.len() implies precedes(
            #[trigger] after[i],
            #[trigger] after[j],
        ) by {
            if j < at {
                assert(after[i] == before[i] && after[j] == before[j]);
            } else if j == at {
                assert(after[i] == before[i]);
            } else if i < at {
                assert(after[i] == before[i] && after[j] == before[j - 1]);
            } else if i == at {
                assert(after[j] == before[j - 1]);
            } else {
                assert(after[i] == before[i - 1] && after[j] == before[j - 1]);
            }
        }
        to_multiset_insert(before, at, name);
        assert(names =~= front.push(name));
        vstd::seq_lib::to_multiset_build(front, name);
    }
}

/// The names are in the order of names, in the terms of `vstd`.
proof fn lemma_in_name_order_is_sorted_by(names: Seq<Seq<char>>)
    requires
        in_name_order(names),
    ensures
        sorted_by(names, name_order()),
{
    assert forall|i: int, j: int| 0 <= i < j < names.len() implies #[trigger] name_order()(
        names[i],
        names[j],
    ) by {
        assert(precedes(names[i], names[j]));
    }
}

/// The sorted names are what sorting by the order of names gives.
pub proof fn lemma_sorted_names_is_sort_by(names: Seq<Seq<char>>)
    ensures
        sorted_names(names) == names.sort_by(name_order()),
{
    lemma_sorted_names(names);
    lemma_name_order_total();
    names.lemma_sort_by_ensures(name_order());
    lemma_in_name_order_is_sorted_by(sorted_names(names));
    lemma_sorted_unique(sorted_names(names), names.sort_by(name_order()), name_order());
}

/// The sorted names do not depend on the order in which the names were
/// given.
pub proof fn lemma_sorted_names_any_order(first: Seq<Seq<char>>, second: Seq<Seq<char>>)
    requires
        first.to_multiset() == second.to_multiset(),
    ensures
        sorted_names(first) == sorted_names(second),
{
    lemma_sorted_names(first);
    lemma_sorted_names(second);
    lemma_name_order_total();
    lemma_in_name_order_is_sorted_by(sorted_names(first));
    lemma_in_name_order_is_sorted_by(sorted_names(second));
    lemma_sorted_unique(sorted_names(first), sorted_names(second), name_order());
}

/// Tells whether `a` comes before `b` or equals it.
pub fn comes_first(a: &str, b: &str) -> (first: bool)
    ensures
        first == precedes(a@, b@),
{
    let left = chars_of(a);
    let right = chars_of(b);
    let mut i: usize = 0;
    while i < left.len()
        invariant
            i <= left.len(),
            left@ == a@,
            right@ == b@,
            precedes(a@, b@) == precedes_from(a@, b@, i as int),
        decreases left.len() - i,
    {
        if i >= right.len() {
            return false;
        }
        if left[i] != right[i] {
            return left[i] < right[i];
        }
        i += 1;
    }
    true
}

/// Puts names in the order of names.
pub fn sort_names(names: Vec<String>) -> (sorted: Vec<String>)
    ensures
        texts(sorted@) == sorted_names(texts(names@)),
{
    let mut names = names;
    let ghost given = texts(names@);
    let mut sorted: Vec<String> = Vec::new();
    let mut i: usize = 0;
    while i < names.len()
        invariant
            i <= names.len(),
            texts(names@) == given,
            texts(sorted@) == sorted_names(given.take(i as int)),
        decreases names.len() - i,
    {
        let name = names[i].clone();
        assert(name@ == given[i as int]);
        let mut at: usize = sorted.len();
        assert(texts(sorted@).take(at as int) == texts(sorted@));
        while at > 0 && !comes_first(sorted[at - 1].as_str(), name.as_str())
            invariant
                at <= sorted.len(),
                insert_at(texts(sorted@), name@) == insert_at(texts(sorted@).take(at as int), name@),
            decreases at,
        {
            assert(texts(sorted@).take(at as int).drop_last() == texts(sorted@).take(at - 1));
            at -= 1;
        }
        let ghost before = texts(sorted@);
        assert(insert_at(before, name@) == at) by {
            if at > 0 {
                assert(before.take(at as int).last() == sorted@[at - 1]@);
            }
        }
        sorted.insert(at, name);
        assert(texts(sorted@) == before.insert(at as int, name@));
        assert(given.take(i + 1).drop_last() == given.take(i as int));
        i += 1;
    }
    assert(given.take(i as int) == given);
    sorted
}

} // verus!
