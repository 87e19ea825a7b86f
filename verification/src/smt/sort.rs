//! Sorting of leaves by resource.

use vstd::prelude::*;
use vstd::seq_lib::lemma_multiset_commutative;

use crate::bytes::{
    lemma_array_view_eq, lemma_lex_irreflexive, lemma_lex_total, lemma_lex_transitive, lex_less,
    precedes,
};
use crate::smt::builder::{ascending, Leaf};

verus! {

/// No resource occurs twice.
pub open spec fn distinct_resources(leaves: Seq<Leaf>) -> bool {
    forall|i: int, j: int|
        #![trigger leaves[i], leaves[j]]
        0 <= i < j < leaves.len() ==> leaves[i].0 != leaves[j].0
}

/// No leaf precedes one that stands before it.
spec fn ordered(leaves: Seq<Leaf>) -> bool {
    forall|i: int, j: int|
        #![trigger leaves[i], leaves[j]]
        0 <= i < j < leaves.len() ==> not_after(leaves[i], leaves[j])
}

/// `a` may stand before `b`.
spec fn not_after(a: Leaf, b: Leaf) -> bool {
    !lex_less(b.0@, a.0@)
}

proof fn lemma_not_after_transitive(a: Leaf, b: Leaf, c: Leaf)
    requires
        not_after(a, b),
        not_after(b, c),
    ensures
        not_after(a, c),
{
    if lex_less(c.0@, a.0@) {
        lemma_lex_total(a.0@, b.0@);
        if a.0@ != b.0@ {
            lemma_lex_transitive(c.0@, a.0@, b.0@);
        }
    }
}

/// An item that moves from either of two lists to their union.
proof fn lemma_merge_step(merged: Seq<Leaf>, a: Seq<Leaf>, b: Seq<Leaf>, x: Leaf)
    requires
        merged.to_multiset() == a.to_multiset().add(b.to_multiset()),
    ensures
        merged.push(x).to_multiset() == a.push(x).to_multiset().add(b.to_multiset()),
        merged.push(x).to_multiset() == a.to_multiset().add(b.push(x).to_multiset()),
{
    broadcast use vstd::seq_lib::group_to_multiset_ensures;
    broadcast use vstd::multiset::group_multiset_axioms;

    assert(merged.push(x).to_multiset() =~= a.push(x).to_multiset().add(b.to_multiset()));
    assert(merged.push(x).to_multiset() =~= a.to_multiset().add(b.push(x).to_multiset()));
}

/// Merges two sorted lists.
fn merge(a: &Vec<Leaf>, b: &Vec<Leaf>) -> (r: Vec<Leaf>)
    requires
        ordered(a@),
        ordered(b@),
    ensures
        ordered(r@),
        r@.to_multiset() == a@.to_multiset().add(b@.to_multiset()),
{
    broadcast use vstd::seq_lib::group_to_multiset_ensures;
    broadcast use vstd::multiset::group_multiset_axioms;

    let mut r: Vec<Leaf> = Vec::new();
    let mut i: usize = 0;
    let mut j: usize = 0;
    assert(r@.to_multiset() =~= a@.take(0).to_multiset().add(b@.take(0).to_multiset())) by {
        assert(a@.take(0) =~= Seq::<Leaf>::empty());
        assert(b@.take(0) =~= Seq::<Leaf>::empty());
        assert(r@ =~= Seq::<Leaf>::empty());
        assert(Seq::<Leaf>::empty().to_multiset() =~= vstd::multiset::Multiset::empty());
    }
    while i < a.len() || j < b.len()
        invariant
            i <= a@.len(),
            j <= b@.len(),
            ordered(a@),
            ordered(b@),
            ordered(r@),
            r@.to_multiset() == a@.take(i as int).to_multiset().add(
                b@.take(j as int).to_multiset(),
            ),
            forall|m: int, k: int|
                #![trigger r@[m], a@[k]]
                0 <= m < r@.len() && i <= k < a@.len() ==> not_after(r@[m], a@[k]),
            forall|m: int, k: int|
                #![trigger r@[m], b@[k]]
                0 <= m < r@.len() && j <= k < b@.len() ==> not_after(r@[m], b@[k]),
        decreases a@.len() - i + b@.len() - j,
    {
        let ghost had = r@;
        let from_a = j >= b.len() || (i < a.len() && !precedes(
            b[j].0.as_slice(),
            a[i].0.as_slice(),
        ));
        if from_a {
            proof {
                let x = a@[i as int];
                lemma_lex_irreflexive(x.0@);
                assert forall|k: int| #![trigger b@[k]] j <= k < b@.len() implies not_after(
                    x,
                    b@[k],
                ) by {
                    if k > j {
                        lemma_not_after_transitive(x, b@[j as int], b@[k]);
                    }
                }
                assert(a@.take(i + 1) =~= a@.take(i as int).push(x));
                lemma_merge_step(had, a@.take(i as int), b@.take(j as int), x);
            }
            r.push(a[i]);
            i += 1;
        } else {
            proof {
                let x = b@[j as int];
                assert forall|k: int| #![trigger a@[k]] i <= k < a@.len() implies not_after(
                    x,
                    a@[k],
                ) by {
                    let y = a@[i as int];
                    if lex_less(y.0@, x.0@) {
                        lemma_lex_transitive(y.0@, x.0@, y.0@);
                        lemma_lex_irreflexive(y.0@);
                    }
                    if k > i {
                        lemma_not_after_transitive(x, y, a@[k]);
                    }
                }
                assert(b@.take(j + 1) =~= b@.take(j as int).push(x));
                lemma_merge_step(had, a@.take(i as int), b@.take(j as int), x);
            }
            r.push(b[j]);
            j += 1;
        }
    }
    assert(a@.take(i as int) =~= a@);
    assert(b@.take(j as int) =~= b@);
    r
}

/// Sorts the leaves from `from` on and before `to`.
fn sort_range(leaves: &Vec<Leaf>, from: usize, to: usize) -> (r: Vec<Leaf>)
    requires
        from <= to <= leaves@.len(),
    ensures
        ordered(r@),
        r@.to_multiset() == leaves@.subrange(from as int, to as int).to_multiset(),
    decreases to - from,
{
    if to - from <= 1 {
        let mut r: Vec<Leaf> = Vec::new();
        if from < to {
            r.push(leaves[from]);
        }
        assert(r@ =~= leaves@.subrange(from as int, to as int));
        r
    } else {
        let mid: usize = from + (to - from) / 2;
        let a = sort_range(leaves, from, mid);
        let b = sort_range(leaves, mid, to);
        proof {
            let x = leaves@.subrange(from as int, mid as int);
            let y = leaves@.subrange(mid as int, to as int);
            assert(x + y =~= leaves@.subrange(from as int, to as int));
            lemma_multiset_commutative(x, y);
        }
        merge(&a, &b)
    }
}

/// Lists with the same leaves agree in whether their resources are distinct.
proof fn lemma_distinct_permuted(a: Seq<Leaf>, b: Seq<Leaf>)
    requires
        a.to_multiset() == b.to_multiset(),
        distinct_resources(a),
    ensures
        distinct_resources(b),
{
    broadcast use vstd::seq_lib::group_to_multiset_ensures;

    assert(a.no_duplicates());
    a.lemma_multiset_has_no_duplicates();
    b.lemma_multiset_has_no_duplicates_conv();
    assert forall|i: int, j: int| #![trigger b[i], b[j]] 0 <= i < j < b.len() implies b[i].0
        != b[j].0 by {
        let x = b[i];
        let y = b[j];
        assert(x != y);
        assert(b.contains(x) && b.contains(y));
        assert(b.to_multiset().count(x) > 0 && b.to_multiset().count(y) > 0);
        assert(a.contains(x) && a.contains(y));
        let m = choose|m: int| 0 <= m < a.len() && a[m] == x;
        let n = choose|n: int| 0 <= n < a.len() && a[n] == y;
        if m < n {
            assert(a[m].0 != a[n].0);
        } else {
            assert(a[n].0 != a[m].0);
        }
    }
}

/// Sorts leaves by resource.
pub fn sort_leaves(leaves: &Vec<Leaf>) -> (r: Vec<Leaf>)
    ensures
        r@.to_multiset() == leaves@.to_multiset(),
        distinct_resources(leaves@) ==> ascending(r@),
{
    let r = sort_range(leaves, 0, leaves.len());
    proof {
        assert(leaves@.subrange(0, leaves@.len() as int) =~= leaves@);
        if distinct_resources(leaves@) {
            lemma_distinct_permuted(leaves@, r@);
            assert forall|i: int, j: int| #![trigger r@[i], r@[j]] 0 <= i < j < r@.len() implies lex_less(
                r@[i].0@,
                r@[j].0@,
            ) by {
                lemma_lex_total(r@[i].0@, r@[j].0@);
                if r@[i].0@ == r@[j].0@ {
                    lemma_array_view_eq(r@[i].0, r@[j].0);
                }
            }
        }
    }
    r
}

/// Whether no resource occurs twice.
pub fn all_distinct(leaves: &Vec<Leaf>) -> (r: bool)
    ensures
        r == distinct_resources(leaves@),
{
    let sorted = sort_leaves(leaves);
    let mut i: usize = 1;
    while i < sorted.len()
        invariant
            1 <= i,
            i <= sorted@.len() || sorted@.len() == 0,
            distinct_resources(leaves@) ==> ascending(sorted@),
            forall|a: int, b: int|
                #![trigger sorted@[a], sorted@[b]]
                0 <= a < b < i && b < sorted@.len() ==> lex_less(sorted@[a].0@, sorted@[b].0@),
        decreases sorted@.len() - i,
    {
        if !precedes(sorted[i - 1].0.as_slice(), sorted[i].0.as_slice()) {
            proof {
                if distinct_resources(leaves@) {
                    assert(lex_less(sorted@[i - 1].0@, sorted@[i as int].0@));
                }
            }
            return false;
        }
        proof {
            assert forall|a: int| 0 <= a < i implies lex_less(
                (#[trigger] sorted@[a]).0@,
                sorted@[i as int].0@,
            ) by {
                if a < i - 1 {
                    lemma_lex_transitive(
                        sorted@[a].0@,
                        sorted@[i - 1].0@,
                        sorted@[i as int].0@,
                    );
                }
            }
        }
        i += 1;
    }
    proof {
        assert forall|a: int, b: int|
            #![trigger sorted@[a], sorted@[b]]
            0 <= a < b < sorted@.len() implies sorted@[a].0 != sorted@[b].0 by {
            lemma_lex_irreflexive(sorted@[a].0@);
        }
        lemma_distinct_permuted(sorted@, leaves@);
    }
    true
}

} // verus!
