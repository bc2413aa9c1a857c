//! What a pass computes, stated over its upstream items.
//!
//! Operations complete in any order, so the reducers see some permutation
//! of the handler's results. The laws here show that the answers do not
//! depend on which permutation it was.
use vstd::prelude::*;
use crate::reduce::{all_hold, any_holds, first_some, somes};

verus! {

broadcast use vstd::seq_lib::group_to_multiset_ensures;

/// `outcomes` is one completion order of the results of `f` over `xs`.
pub open spec fn completion_order_of<T, O>(outcomes: Seq<O>, xs: Seq<T>, f: spec_fn(T) -> O) -> bool {
    outcomes.to_multiset() == xs.map_values(f).to_multiset()
}

proof fn lemma_same_elements<T, O>(outcomes: Seq<O>, xs: Seq<T>, f: spec_fn(T) -> O, o: O)
    requires
        completion_order_of(outcomes, xs, f),
    ensures
        outcomes.contains(o) <==> exists|i: int| 0 <= i < xs.len() && f(xs[i]) == o,
{
    let m = xs.map_values(f);
    assert(outcomes.contains(o) <==> outcomes.to_multiset().count(o) > 0);
    assert(m.contains(o) <==> m.to_multiset().count(o) > 0);
    if m.contains(o) {
        let k = choose|k: int| 0 <= k < m.len() && m[k] == o;
        assert(f(xs[k]) == o);
    }
    if exists|i: int| 0 <= i < xs.len() && f(xs[i]) == o {
        let i = choose|i: int| 0 <= i < xs.len() && f(xs[i]) == o;
        assert(m[i] == o);
    }
}

/// A boolean pass answers as the sequential `all` and `any` over the
/// upstream items would, whatever order the operations completed in.
pub proof fn lemma_bool_pass_is_sequential<T>(xs: Seq<T>, p: spec_fn(T) -> bool, outcomes: Seq<bool>)
    requires
        completion_order_of(outcomes, xs, p),
    ensures
        all_hold(outcomes) == (forall|i: int| 0 <= i < xs.len() ==> p(xs[i])),
        any_holds(outcomes) == (exists|i: int| 0 <= i < xs.len() && p(xs[i])),
{
    lemma_same_elements(outcomes, xs, p, false);
    lemma_same_elements(outcomes, xs, p, true);
    assert(all_hold(outcomes) <==> !outcomes.contains(false));
    assert(any_holds(outcomes) <==> outcomes.contains(true));
    if forall|i: int| 0 <= i < xs.len() ==> p(xs[i]) {
        assert(!exists|i: int| 0 <= i < xs.len() && p(xs[i]) == false);
    }
    if exists|i: int| 0 <= i < xs.len() && p(xs[i]) {
        let i = choose|i: int| 0 <= i < xs.len() && p(xs[i]);
        assert(p(xs[i]) == true);
    }
}

proof fn lemma_first_some_is_an_outcome<U>(s: Seq<Option<U>>)
    ensures
        first_some(s) is Some ==> s.contains(first_some(s)),
        first_some(s) is None <==> !exists|u: U| s.contains(Some(u)),
    decreases s.len(),
{
    if s.len() > 0 {
        lemma_first_some_is_an_outcome(s.drop_first());
        if s[0] is Some {
            assert(s[0] == first_some(s));
            assert(s.contains(Some(s[0]->0)));
        } else {
            if first_some(s) is Some {
                let k = choose|k: int| 0 <= k < s.drop_first().len() && s.drop_first()[k] == first_some(s);
                assert(s[k + 1] == first_some(s));
                assert(s.contains(Some(first_some(s)->0)));
            }
            if exists|u: U| s.contains(Some(u)) {
                let u = choose|u: U| s.contains(Some(u));
                let k = choose|k: int| 0 <= k < s.len() && s[k] == Some(u);
                assert(s.drop_first()[k - 1] == Some(u));
                assert(s.drop_first().contains(Some(u)));
            }
        }
    }
}

/// A find pass returns a value that the handler produced for some upstream
/// item, and returns nothing exactly when the handler produced nothing for
/// every item.
pub proof fn lemma_find_map_sound<T, U>(xs: Seq<T>, f: spec_fn(T) -> Option<U>, outcomes: Seq<Option<U>>)
    requires
        completion_order_of(outcomes, xs, f),
    ensures
        first_some(outcomes) is Some ==> exists|i: int| 0 <= i < xs.len() && f(xs[i]) == first_some(outcomes),
        first_some(outcomes) is None <==> forall|i: int| 0 <= i < xs.len() ==> f(xs[i]) is None,
{
    lemma_first_some_is_an_outcome(outcomes);
    lemma_same_elements(outcomes, xs, f, first_some(outcomes));
    if first_some(outcomes) is None {
        assert forall|i: int| 0 <= i < xs.len() implies f(xs[i]) is None by {
            if f(xs[i]) is Some {
                lemma_same_elements(outcomes, xs, f, f(xs[i]));
                assert(outcomes.contains(Some(f(xs[i])->0)));
            }
        }
    } else {
        let i = choose|i: int| 0 <= i < xs.len() && f(xs[i]) == first_some(outcomes);
        assert(f(xs[i]) is Some);
    }
}

proof fn lemma_somes_contains<U>(s: Seq<Option<U>>, u: U)
    ensures
        somes(s).contains(u) <==> s.contains(Some(u)),
    decreases s.len(),
{
    if s.len() > 0 {
        lemma_somes_contains(s.drop_last(), u);
        let r = somes(s.drop_last());
        if s.contains(Some(u)) {
            let k = choose|k: int| 0 <= k < s.len() && s[k] == Some(u);
            if k < s.len() - 1 {
                assert(s.drop_last()[k] == Some(u));
                assert(s.drop_last().contains(Some(u)));
                let j = choose|j: int| 0 <= j < r.len() && r[j] == u;
                match s.last() {
                    Some(v) => {
                        assert(somes(s)[j] == u);
                    },
                    None => {
                        assert(somes(s)[j] == u);
                    },
                }
            } else {
                assert(somes(s) == r.push(u));
                assert(somes(s)[r.len() as int] == u);
            }
        }
        if somes(s).contains(u) {
            let k = choose|k: int| 0 <= k < somes(s).len() && somes(s)[k] == u;
            match s.last() {
                Some(v) => {
                    if k < r.len() {
                        assert(r[k] == u);
                        let j = choose|j: int| 0 <= j < s.drop_last().len() && s.drop_last()[j] == Some(u);
                        assert(s[j] == Some(u));
                    } else {
                        assert(s[s.len() - 1] == Some(u));
                    }
                },
                None => {
                    assert(r[k] == u);
                    let j = choose|j: int| 0 <= j < s.drop_last().len() && s.drop_last()[j] == Some(u);
                    assert(s[j] == Some(u));
                },
            }
        }
    }
}

/// The values that a filter pass re-streams form exactly the set of values
/// that the handler produced over the upstream items.
pub proof fn lemma_filter_map_set<T, U>(xs: Seq<T>, f: spec_fn(T) -> Option<U>, outcomes: Seq<Option<U>>)
    requires
        completion_order_of(outcomes, xs, f),
    ensures
        somes(outcomes).to_set() == Set::new(|u: U| exists|i: int| 0 <= i < xs.len() && f(xs[i]) == Some(u)),
{
    let target = Set::new(|u: U| exists|i: int| 0 <= i < xs.len() && f(xs[i]) == Some(u));
    assert forall|u: U| somes(outcomes).to_set().contains(u) <==> target.contains(u) by {
        lemma_somes_contains(outcomes, u);
        lemma_same_elements(outcomes, xs, f, Some(u));
    }
    assert(somes(outcomes).to_set() =~= target);
}

} // verus!
