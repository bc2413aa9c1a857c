//! A boolean pass: an executor whose completions feed a `BoolPass`, and
//! which stops admitting the moment the answer is settled.
use vstd::prelude::*;
use crate::executor::{apply, step_of, Event, ExecModel, Executor, Step};
use crate::reduce::{decisive, verdict, BoolPass, Quantifier};

verus! {

pub struct BoolRun {
    lanes: Executor,
    pass: BoolPass,
    answer: Option<bool>,
}

impl BoolRun {
    /// The admission state of the run.
    pub closed spec fn state(&self) -> ExecModel {
        self.lanes@
    }

    pub closed spec fn quantifier(&self) -> Quantifier {
        self.pass.quantifier()
    }

    /// The outcomes observed so far, in completion order.
    pub closed spec fn seen(&self) -> Seq<bool> {
        self.pass.seen()
    }

    /// The settled answer, once an outcome settled it.
    pub closed spec fn answer(&self) -> Option<bool> {
        self.answer
    }

    pub open spec fn wf(&self) -> bool {
        &&& self.state().width >= 1
        &&& self.state().active <= self.state().width
        &&& self.state().started == self.state().active + self.state().completed
        &&& self.state().completed == self.seen().len()
        &&& (self.answer() is Some <==> exists|i: int|
            0 <= i < self.seen().len() && decisive(self.quantifier(), self.seen()[i]))
        &&& (self.answer() is Some ==> self.answer() == Some(verdict(self.quantifier(), self.seen())))
        &&& self.state().halted == self.answer() is Some
        &&& (self.state().width == 1 && self.seen().len() >= 1 && decisive(
            self.quantifier(),
            self.seen()[0],
        ) ==> self.state().started <= 1)
    }

    proof fn lemma_wf_parts(&self)
        requires
            self.wf(),
        ensures
            self.lanes.wf(),
            self.answer is None ==> self.pass.undecided(),
    {
    }

    pub fn new(quantifier: Quantifier, width: usize) -> (r: BoolRun)
        requires
            width >= 1,
        ensures
            r.wf(),
            r.quantifier() == quantifier,
            r.state() == crate::executor::initial(width as nat),
            r.seen() == Seq::<bool>::empty(),
    {
        BoolRun { lanes: Executor::new(width), pass: BoolPass::new(quantifier), answer: None }
    }

    pub fn next_step(&self) -> (r: Step)
        ensures
            r == step_of(self.state()),
    {
        self.lanes.next_step()
    }

    /// Records that the next upstream item was pulled and its operation started.
    pub fn admitted(&mut self)
        requires
            old(self).wf(),
            step_of(old(self).state()) == Step::Pull,
        ensures
            final(self).wf(),
            final(self).state() == apply(old(self).state(), Event::Admit),
            final(self).seen() == old(self).seen(),
            final(self).quantifier() == old(self).quantifier(),
    {
        proof {
            self.lemma_wf_parts();
        }
        self.lanes.record(Event::Admit);
    }

    /// Records that upstream has no more items.
    pub fn exhausted(&mut self)
        requires
            old(self).wf(),
        ensures
            final(self).wf(),
            final(self).state() == apply(old(self).state(), Event::Exhausted),
            final(self).seen() == old(self).seen(),
            final(self).quantifier() == old(self).quantifier(),
    {
        proof {
            self.lemma_wf_parts();
        }
        self.lanes.record(Event::Exhausted);
    }

    /// Records a completed operation and its outcome. Returns the answer
    /// when this outcome settles it; the run is then stopped and admits
    /// nothing more.
    pub fn completed(&mut self, outcome: bool) -> (r: Option<bool>)
        requires
            old(self).wf(),
            step_of(old(self).state()) == Step::Wait,
        ensures
            final(self).wf(),
            final(self).quantifier() == old(self).quantifier(),
            final(self).seen() == old(self).seen().push(outcome),
            final(self).state().started == old(self).state().started,
            r == (if decisive(old(self).quantifier(), outcome) {
                Some(verdict(old(self).quantifier(), final(self).seen()))
            } else {
                None
            }),
            r is Some ==> step_of(final(self).state()) == Step::Done,
            r is None ==> final(self).state() == apply(old(self).state(), Event::Complete),
    {
        proof {
            self.lemma_wf_parts();
        }
        let ghost old_seen = self.pass.seen();
        self.lanes.record(Event::Complete);
        let settled = self.pass.observe(outcome);
        proof {
            let s = self.pass.seen();
            assert(s[s.len() - 1] == outcome);
            assert forall|i: int| 0 <= i < old_seen.len() implies s[i] == old_seen[i] by {}
            if settled is None {
                assert forall|i: int| 0 <= i < s.len() implies !decisive(self.pass.quantifier(), s[i]) by {}
            }
        }
        if settled.is_some() {
            self.lanes.record(Event::Halt);
            self.answer = settled;
        }
        proof {
            let s = self.pass.seen();
            let q = self.pass.quantifier();
            assert(self.lanes@.completed == s.len());
            if decisive(q, outcome) {
                assert(decisive(q, s[s.len() - 1]));
            } else {
                assert(!exists|i: int| 0 <= i < s.len() && decisive(q, s[i]));
            }
            assert(self.answer is Some <==> exists|i: int| 0 <= i < s.len() && decisive(q, s[i]));
            assert(self.lanes@.halted == self.answer is Some);
            if self.lanes@.width == 1 && decisive(q, s[0]) {
                assert(self.lanes@.started <= 1);
            }
        }
        settled
    }

    /// The answer of a finished run.
    pub fn finish(&self) -> (r: bool)
        requires
            self.wf(),
            step_of(self.state()) == Step::Done,
        ensures
            r == verdict(self.quantifier(), self.seen()),
    {
        proof {
            self.lemma_wf_parts();
        }
        match self.answer {
            Some(v) => v,
            None => self.pass.finish(),
        }
    }
}

/// At width one, once the first outcome settles the answer, the run has
/// started at most one operation and is done: an endless upstream is never
/// pulled again.
pub proof fn lemma_single_lane_economy(r: &BoolRun)
    requires
        r.wf(),
        r.state().width == 1,
        r.seen().len() >= 1,
        decisive(r.quantifier(), r.seen()[0]),
    ensures
        r.state().started <= 1,
        step_of(r.state()) == Step::Done,
{
    assert(decisive(r.quantifier(), r.seen()[0]));
}

} // verus!
