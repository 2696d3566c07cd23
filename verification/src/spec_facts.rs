//! Small general lemmas about sets and sequences that the graph proofs use.

use vstd::prelude::*;

verus! {

/// The image of a finite set under an injective function has the same size.
pub proof fn lemma_injective_map_len<A, B>(s: Set<A>, f: spec_fn(A) -> B)
    requires
        s.finite(),
        forall|x: A, y: A| s.contains(x) && s.contains(y) && f(x) == f(y) ==> x == y,
    ensures
        s.map(f).finite(),
        s.map(f).len() == s.len(),
    decreases s.len(),
{
    broadcast use vstd::set::group_set_axioms;
    broadcast use vstd::set_lib::lemma_set_empty_equivalency_len;

    if s.len() == 0 {
        assert(s =~= Set::<A>::empty());
        assert forall|res: B| #[trigger] s.map(f).contains(res) implies false by {
            let x = choose|x: A| s.contains(x) && f(x) == res;
        };
        assert(s.map(f) =~= Set::<B>::empty());
    } else {
        let x = choose|x: A| s.contains(x);
        let rest = s.remove(x);
        lemma_injective_map_len(rest, f);
        assert forall|res: B| #[trigger] rest.map(f).contains(res) implies s.map(f).remove(
            f(x),
        ).contains(res) by {
            let y = choose|y: A| rest.contains(y) && f(y) == res;
            assert(s.contains(y));
        };
        assert forall|res: B| #[trigger] s.map(f).remove(f(x)).contains(res) implies rest.map(
            f,
        ).contains(res) by {
            let y = choose|y: A| s.contains(y) && f(y) == res;
            assert(y != x);
            assert(rest.contains(y));
        };
        assert(rest.map(f) =~= s.map(f).remove(f(x)));
        assert(s.map(f).contains(f(x)));
        assert(s.map(f).remove(f(x)).insert(f(x)) =~= s.map(f));
    }
}

/// Filtering twice is filtering by the conjunction.
pub proof fn lemma_filter_filter<A>(s: Seq<A>, p: spec_fn(A) -> bool, q: spec_fn(A) -> bool)
    ensures
        s.filter(p).filter(q) == s.filter(|x: A| p(x) && q(x)),
    decreases s.len(),
{
    reveal(Seq::filter);
    if s.len() == 0 {
        assert(s.filter(p) =~= Seq::<A>::empty());
    } else {
        let pre = s.drop_last();
        let x = s.last();
        lemma_filter_filter(pre, p, q);
        if p(x) {
            assert(s.filter(p) == pre.filter(p).push(x));
            lemma_filter_push(pre.filter(p), q, x);
        } else {
            assert(s.filter(p) == pre.filter(p));
        }
    }
}

/// Filtering a pushed sequence filters the prefix and tests the new element.
pub proof fn lemma_filter_push<A>(s: Seq<A>, p: spec_fn(A) -> bool, x: A)
    ensures
        s.push(x).filter(p) == if p(x) {
            s.filter(p).push(x)
        } else {
            s.filter(p)
        },
{
    reveal(Seq::filter);
    assert(s.push(x).drop_last() =~= s);
    assert(s.push(x).last() == x);
}

/// Predicates that agree on every element of a sequence filter it alike.
pub proof fn lemma_filter_agree<A>(s: Seq<A>, p: spec_fn(A) -> bool, q: spec_fn(A) -> bool)
    requires
        forall|i: int| 0 <= i < s.len() ==> p(#[trigger] s[i]) == q(s[i]),
    ensures
        s.filter(p) == s.filter(q),
    decreases s.len(),
{
    reveal(Seq::filter);
    if s.len() > 0 {
        let pre = s.drop_last();
        assert(forall|i: int| 0 <= i < pre.len() ==> pre[i] == s[i]);
        lemma_filter_agree(pre, p, q);
        assert(p(s.last()) == q(s.last()));
    }
}

/// Filtering by a predicate that holds everywhere changes nothing.
pub proof fn lemma_filter_all<A>(s: Seq<A>, p: spec_fn(A) -> bool)
    requires
        forall|i: int| 0 <= i < s.len() ==> p(#[trigger] s[i]),
    ensures
        s.filter(p) == s,
    decreases s.len(),
{
    reveal(Seq::filter);
    if s.len() > 0 {
        let pre = s.drop_last();
        assert(forall|i: int| 0 <= i < pre.len() ==> pre[i] == s[i]);
        lemma_filter_all(pre, p);
        assert(s.filter(p) =~= s);
    }
}

/// Pushing onto a sequence inserts into its set of elements.
pub proof fn lemma_push_to_set<A>(s: Seq<A>, x: A)
    ensures
        s.push(x).to_set() =~= s.to_set().insert(x),
{
    assert forall|y: A| s.push(x).to_set().contains(y) implies s.to_set().insert(x).contains(
        y,
    ) by {
        let j = choose|j: int| 0 <= j < s.push(x).len() && #[trigger] s.push(x)[j] == y;
        if j < s.len() {
            assert(s[j] == y);
        }
    };
    assert forall|y: A| s.to_set().insert(x).contains(y) implies s.push(x).to_set().contains(
        y,
    ) by {
        if y == x {
            assert(s.push(x)[s.len() as int] == y);
        } else {
            let j = choose|j: int| 0 <= j < s.len() && #[trigger] s[j] == y;
            assert(s.push(x)[j] == y);
        }
    };
}

/// An element of a filtered sequence is an element of the original that
/// satisfies the predicate.
pub proof fn lemma_filter_elems<A>(s: Seq<A>, p: spec_fn(A) -> bool, j: int)
    requires
        0 <= j < s.filter(p).len(),
    ensures
        s.contains(s.filter(p)[j]),
        p(s.filter(p)[j]),
    decreases s.len(),
{
    reveal(Seq::filter);
    if s.len() > 0 {
        let pre = s.drop_last();
        let x = s.filter(p)[j];
        if p(s.last()) && j == s.filter(p).len() - 1 {
            assert(x == s.last());
            assert(s[s.len() - 1] == x);
        } else {
            lemma_filter_elems(pre, p, j);
            let jj = choose|jj: int| 0 <= jj < pre.len() && pre[jj] == pre.filter(p)[j];
            assert(s[jj] == s.filter(p)[j]);
        }
    }
}

} // verus!
