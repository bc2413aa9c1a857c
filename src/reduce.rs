//! Ready reducers: drain the completion-ordered outcomes of a pass.
//!
//! Outcomes are handed over in the order their operations completed. The
//! deciding reducers stop at the first outcome that settles the answer and
//! report how many outcomes they consumed; the rest of the pass is then
//! abandoned by its executor.
use vstd::prelude::*;

verus! {

/// Which answer a boolean pass computes.
#[derive(PartialEq, Eq, Structural, Clone, Copy, Debug)]
pub enum Quantifier {
    /// True iff every outcome holds.
    All,
    /// True iff some outcome holds.
    Any,
}

pub open spec fn all_hold(s: Seq<bool>) -> bool {
    forall|i: int| 0 <= i < s.len() ==> s[i]
}

pub open spec fn any_holds(s: Seq<bool>) -> bool {
    exists|i: int| 0 <= i < s.len() && s[i]
}

/// The answer of a boolean pass over the outcomes `s`.
pub open spec fn verdict(q: Quantifier, s: Seq<bool>) -> bool {
    match q {
        Quantifier::All => all_hold(s),
        Quantifier::Any => any_holds(s),
    }
}

/// Whether the outcome `o` settles the answer on its own.
pub open spec fn decisive(q: Quantifier, o: bool) -> bool {
    match q {
        Quantifier::All => !o,
        Quantifier::Any => o,
    }
}

/// The first present value among the outcomes, in completion order.
pub open spec fn first_some<U>(s: Seq<Option<U>>) -> Option<U>
    decreases s.len(),
{
    if s.len() == 0 {
        None
    } else if s[0] is Some {
        s[0]
    } else {
        first_some(s.drop_first())
    }
}

/// The present values among the outcomes, in completion order.
pub open spec fn somes<U>(s: Seq<Option<U>>) -> Seq<U>
    decreases s.len(),
{
    if s.len() == 0 {
        Seq::empty()
    } else {
        match s.last() {
            Some(u) => somes(s.drop_last()).push(u),
            None => somes(s.drop_last()),
        }
    }
}

/// The answer of a deciding reducer and how many outcomes it consumed.
pub struct Ready<T> {
    pub value: T,
    pub consumed: usize,
}

/// A boolean pass fed one outcome at a time.
pub struct BoolPass {
    quantifier: Quantifier,
    seen: Ghost<Seq<bool>>,
}

impl BoolPass {
    pub closed spec fn quantifier(&self) -> Quantifier {
        self.quantifier
    }

    /// The outcomes observed so far, in completion order.
    pub closed spec fn seen(&self) -> Seq<bool> {
        self.seen@
    }

    /// No outcome so far has settled the answer.
    pub open spec fn undecided(&self) -> bool {
        forall|i: int| 0 <= i < self.seen().len() ==> !decisive(self.quantifier(), self.seen()[i])
    }

    pub fn new(quantifier: Quantifier) -> (r: BoolPass)
        ensures
            r.quantifier() == quantifier,
            r.seen() == Seq::<bool>::empty(),
    {
        BoolPass { quantifier, seen: Ghost(Seq::empty()) }
    }

    /// Takes the next outcome. Returns the answer once it is settled, after
    /// which the pass must be stopped; `None` asks for more outcomes.
    pub fn observe(&mut self, outcome: bool) -> (r: Option<bool>)
        requires
            old(self).undecided(),
        ensures
            final(self).quantifier() == old(self).quantifier(),
            final(self).seen() == old(self).seen().push(outcome),
            r == (if decisive(old(self).quantifier(), outcome) {
                Some(verdict(old(self).quantifier(), final(self).seen()))
            } else {
                None
            }),
            r is None ==> final(self).undecided(),
    {
        let ghost s = self.seen@.push(outcome);
        self.seen = Ghost(s);
        let settled = match self.quantifier {
            Quantifier::All => !outcome,
            Quantifier::Any => outcome,
        };
        if settled {
            proof {
                assert(s[s.len() - 1] == outcome);
            }
            match self.quantifier {
                Quantifier::All => Some(false),
                Quantifier::Any => Some(true),
            }
        } else {
            proof {
                assert forall|i: int| 0 <= i < s.len() implies !decisive(self.quantifier, s[i]) by {
                    if i < s.len() - 1 {
                        assert(s[i] == old(self).seen()[i]);
                    }
                }
            }
            None
        }
    }

    /// The answer once every outcome was observed and none settled it.
    pub fn finish(&self) -> (r: bool)
        requires
            self.undecided(),
        ensures
            r == verdict(self.quantifier(), self.seen()),
    {
        match self.quantifier {
            Quantifier::All => true,
            Quantifier::Any => false,
        }
    }
}

/// Runs a boolean pass over `outcomes`, stopping at the first decisive one.
pub fn ready_bool(quantifier: Quantifier, outcomes: &Vec<bool>) -> (r: Ready<bool>)
    ensures
        r.value == verdict(quantifier, outcomes@),
        r.consumed <= outcomes.len(),
        outcomes.len() > 0 ==> r.consumed >= 1,
        forall|j: int| 0 <= j < r.consumed - 1 ==> !decisive(quantifier, outcomes@[j]),
        r.consumed < outcomes.len() ==> decisive(quantifier, outcomes@[r.consumed - 1]),
{
    let mut pass = BoolPass::new(quantifier);
    let mut i: usize = 0;
    while i < outcomes.len()
        invariant
            i <= outcomes.len(),
            pass.quantifier() == quantifier,
            pass.seen() == outcomes@.take(i as int),
            pass.undecided(),
        decreases outcomes.len() - i,
    {
        let settled = pass.observe(outcomes[i]);
        assert(outcomes@.take(i + 1) =~= outcomes@.take(i as int).push(outcomes@[i as int]));
        match settled {
            Some(v) => {
                proof {
                    let s = outcomes@;
                    assert(s.take(i + 1)[i as int] == s[i as int]);
                    if quantifier == Quantifier::All {
                        assert(!s[i as int]);
                        assert(!all_hold(s));
                    } else {
                        assert(s[i as int]);
                        assert(any_holds(s));
                    }
                    assert forall|j: int| 0 <= j < i implies !decisive(quantifier, s[j]) by {
                        assert(s.take(i as int)[j] == s[j]);
                    }
                }
                return Ready { value: v, consumed: i + 1 };
            },
            None => {},
        }
        i = i + 1;
    }
    proof {
        let s = outcomes@;
        assert(s.take(i as int) =~= s);
        assert forall|j: int| 0 <= j < s.len() implies !decisive(quantifier, s[j]) by {
            assert(pass.seen()[j] == s[j]);
        }
    }
    Ready { value: pass.finish(), consumed: i }
}

/// True iff every outcome holds; stops at the first that does not.
pub fn ready_all(outcomes: &Vec<bool>) -> (r: Ready<bool>)
    ensures
        r.value == all_hold(outcomes@),
        r.consumed <= outcomes.len(),
        outcomes.len() > 0 ==> r.consumed >= 1,
        forall|j: int| 0 <= j < r.consumed - 1 ==> outcomes@[j],
        r.consumed < outcomes.len() ==> !outcomes@[r.consumed - 1],
{
    ready_bool(Quantifier::All, outcomes)
}

/// True iff some outcome holds; stops at the first that does.
pub fn ready_any(outcomes: &Vec<bool>) -> (r: Ready<bool>)
    ensures
        r.value == any_holds(outcomes@),
        r.consumed <= outcomes.len(),
        outcomes.len() > 0 ==> r.consumed >= 1,
        forall|j: int| 0 <= j < r.consumed - 1 ==> !outcomes@[j],
        r.consumed < outcomes.len() ==> outcomes@[r.consumed - 1],
{
    ready_bool(Quantifier::Any, outcomes)
}

/// The same items in reverse, so that popping yields them in their first order.
pub(crate) fn reversed<T>(v: Vec<T>) -> (r: Vec<T>)
    ensures
        r.len() == v.len(),
        forall|i: int| 0 <= i < v.len() ==> r@[i] == v@[v.len() - 1 - i],
{
    let ghost s = v@;
    let mut rest = v;
    let mut out: Vec<T> = Vec::new();
    while rest.len() > 0
        invariant
            rest.len() + out.len() == s.len(),
            forall|i: int| 0 <= i < rest.len() ==> rest@[i] == s[i],
            forall|i: int| 0 <= i < out.len() ==> out@[i] == s[s.len() - 1 - i],
        decreases rest.len(),
    {
        let x = rest.pop().unwrap();
        out.push(x);
    }
    out
}

proof fn lemma_first_some_at<U>(s: Seq<Option<U>>, i: int)
    requires
        0 <= i < s.len(),
        s[i] is Some,
        forall|j: int| 0 <= j < i ==> s[j] is None,
    ensures
        first_some(s) == s[i],
    decreases i,
{
    if i > 0 {
        lemma_first_some_at(s.drop_first(), i - 1);
    }
}

proof fn lemma_first_some_none<U>(s: Seq<Option<U>>)
    ensures
        first_some(s) is None <==> forall|j: int| 0 <= j < s.len() ==> s[j] is None,
    decreases s.len(),
{
    if s.len() > 0 {
        lemma_first_some_none(s.drop_first());
        if first_some(s) is None {
            assert forall|j: int| 0 <= j < s.len() implies s[j] is None by {
                if j > 0 {
                    assert(s[j] == s.drop_first()[j - 1]);
                }
            }
        } else if forall|j: int| 0 <= j < s.len() ==> s[j] is None {
            assert(s[0] is None);
            assert forall|j: int| 0 <= j < s.drop_first().len() implies s.drop_first()[j] is None by {
                assert(s.drop_first()[j] == s[j + 1]);
            }
        }
    }
}

/// A find pass fed one outcome at a time.
pub struct FindPass<U> {
    seen: Ghost<Seq<Option<U>>>,
}

impl<U> FindPass<U> {
    /// The outcomes observed so far, in completion order.
    pub closed spec fn seen(&self) -> Seq<Option<U>> {
        self.seen@
    }

    /// No value was found so far.
    pub open spec fn undecided(&self) -> bool {
        forall|i: int| 0 <= i < self.seen().len() ==> self.seen()[i] is None
    }

    pub fn new() -> (r: FindPass<U>)
        ensures
            r.seen() == Seq::<Option<U>>::empty(),
    {
        FindPass { seen: Ghost(Seq::empty()) }
    }

    /// Takes the next outcome. Returns the found value, the first present
    /// one in completion order, after which the pass must be stopped;
    /// `None` asks for more outcomes.
    pub fn observe(&mut self, outcome: Option<U>) -> (r: Option<U>)
        requires
            old(self).undecided(),
        ensures
            final(self).seen() == old(self).seen().push(outcome),
            r == first_some(final(self).seen()),
            r is None ==> final(self).undecided(),
    {
        let ghost s = self.seen@.push(outcome);
        self.seen = Ghost(s);
        proof {
            assert forall|j: int| 0 <= j < s.len() - 1 implies s[j] is None by {
                assert(s[j] == old(self).seen()[j]);
            }
            if outcome is Some {
                lemma_first_some_at(s, s.len() - 1);
            } else {
                lemma_first_some_none(s);
            }
        }
        outcome
    }
}

/// The first present value in completion order; stops there.
pub fn ready_find_map<U>(outcomes: Vec<Option<U>>) -> (r: Ready<Option<U>>)
    ensures
        r.value == first_some(outcomes@),
        r.consumed <= outcomes.len(),
        forall|j: int| 0 <= j < r.consumed - 1 ==> outcomes@[j] is None,
        r.value is Some ==> r.consumed >= 1 && outcomes@[r.consumed - 1] == r.value,
        r.value is None ==> r.consumed == outcomes.len(),
{
    let ghost s = outcomes@;
    let n = outcomes.len();
    let mut queue = reversed(outcomes);
    let mut i: usize = 0;
    while i < n
        invariant
            s == outcomes@,
            n == s.len(),
            i <= n,
            queue.len() == n - i,
            forall|k: int| 0 <= k < queue.len() ==> queue@[k] == s[n - 1 - k],
            forall|j: int| 0 <= j < i ==> s[j] is None,
        decreases n - i,
    {
        let o = queue.pop().unwrap();
        assert(o == s[i as int]);
        match o {
            Some(u) => {
                proof {
                    lemma_first_some_at(s, i as int);
                }
                return Ready { value: Some(u), consumed: i + 1 };
            },
            None => {},
        }
        i = i + 1;
    }
    proof {
        lemma_first_some_none(s);
    }
    Ready { value: None, consumed: i }
}

/// Every present value, in completion order; consumes all outcomes.
pub fn ready_filter_map<U>(outcomes: Vec<Option<U>>) -> (r: Vec<U>)
    ensures
        r@ == somes(outcomes@),
{
    let ghost s = outcomes@;
    let n = outcomes.len();
    let mut queue = reversed(outcomes);
    let mut out: Vec<U> = Vec::new();
    let mut i: usize = 0;
    while i < n
        invariant
            s == outcomes@,
            n == s.len(),
            i <= n,
            queue.len() == n - i,
            forall|k: int| 0 <= k < queue.len() ==> queue@[k] == s[n - 1 - k],
            out@ == somes(s.take(i as int)),
        decreases n - i,
    {
        let o = queue.pop().unwrap();
        assert(o == s[i as int]);
        assert(s.take(i + 1).drop_last() =~= s.take(i as int));
        match o {
            Some(u) => {
                out.push(u);
            },
            None => {},
        }
        i = i + 1;
    }
    assert(s.take(n as int) =~= s);
    out
}

} // verus!
