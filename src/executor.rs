//! Bounded unordered executor: admission control for one pass.
//!
//! The executor owns `width` admission slots. A runtime asks it what to do
//! next and reports back what happened: an item was admitted, upstream
//! ended, an operation completed, or the pass was stopped.
use vstd::prelude::*;

verus! {

/// What the runtime should do next.
#[derive(PartialEq, Eq, Structural, Clone, Copy, Debug)]
pub enum Step {
    /// Pull the next upstream item and start its operation.
    Pull,
    /// Every slot is busy (or upstream ended): wait for a completion.
    Wait,
    /// The pass is over: nothing is active and nothing more is admitted.
    Done,
}

/// What the runtime reports back.
#[derive(PartialEq, Eq, Structural, Clone, Copy, Debug)]
pub enum Event {
    /// An upstream item was pulled and its operation started.
    Admit,
    /// Upstream reported that it has no more items.
    Exhausted,
    /// One active operation completed.
    Complete,
    /// The consumer stopped the pass (short-circuit or fault).
    Halt,
}

/// The state of a pass, as counts.
pub struct ExecModel {
    pub width: nat,
    pub active: nat,
    pub started: nat,
    pub completed: nat,
    pub exhausted: bool,
    pub halted: bool,
}

pub open spec fn initial(width: nat) -> ExecModel {
    ExecModel { width, active: 0, started: 0, completed: 0, exhausted: false, halted: false }
}

/// The next step of a pass in state `m`.
pub open spec fn step_of(m: ExecModel) -> Step {
    if m.halted {
        Step::Done
    } else if !m.exhausted && m.active < m.width {
        Step::Pull
    } else if m.active > 0 {
        Step::Wait
    } else {
        Step::Done
    }
}

/// Whether `e` can happen in state `m`.
pub open spec fn enabled(m: ExecModel, e: Event) -> bool {
    match e {
        Event::Admit => step_of(m) == Step::Pull,
        Event::Exhausted => step_of(m) == Step::Pull,
        Event::Complete => !m.halted && m.active > 0,
        Event::Halt => true,
    }
}

/// The state after `e`; an event that cannot happen leaves the state as it is.
pub open spec fn apply(m: ExecModel, e: Event) -> ExecModel {
    if !enabled(m, e) {
        m
    } else {
        match e {
            Event::Admit => ExecModel { active: m.active + 1, started: m.started + 1, ..m },
            Event::Exhausted => ExecModel { exhausted: true, ..m },
            Event::Complete => ExecModel {
                active: (m.active - 1) as nat,
                completed: m.completed + 1,
                ..m
            },
            Event::Halt => ExecModel { halted: true, ..m },
        }
    }
}

/// The state of a pass of width `width` after the events `evs`.
pub open spec fn run(width: nat, evs: Seq<Event>) -> ExecModel
    decreases evs.len(),
{
    if evs.len() == 0 {
        initial(width)
    } else {
        apply(run(width, evs.drop_last()), evs.last())
    }
}

/// Admission state of one pass.
pub struct Executor {
    width: usize,
    active: usize,
    exhausted: bool,
    halted: bool,
    started: Ghost<nat>,
    completed: Ghost<nat>,
}

impl View for Executor {
    type V = ExecModel;

    closed spec fn view(&self) -> ExecModel {
        ExecModel {
            width: self.width as nat,
            active: self.active as nat,
            started: self.started@,
            completed: self.completed@,
            exhausted: self.exhausted,
            halted: self.halted,
        }
    }
}

/// The counts that every reachable state keeps.
pub open spec fn model_wf(m: ExecModel) -> bool {
    &&& m.width >= 1
    &&& m.active <= m.width
    &&& m.started == m.active + m.completed
}

impl Executor {
    pub open spec fn wf(&self) -> bool {
        model_wf(self@)
    }

    /// A pass of `width` slots, nothing admitted yet.
    pub fn new(width: usize) -> (r: Executor)
        requires
            width >= 1,
        ensures
            r@ == initial(width as nat),
            r.wf(),
    {
        Executor {
            width,
            active: 0,
            exhausted: false,
            halted: false,
            started: Ghost(0),
            completed: Ghost(0),
        }
    }

    pub fn width(&self) -> (r: usize)
        ensures
            r as nat == self@.width,
    {
        self.width
    }

    /// Operations started and not yet completed.
    pub fn active(&self) -> (r: usize)
        ensures
            r as nat == self@.active,
    {
        self.active
    }

    pub fn next_step(&self) -> (r: Step)
        ensures
            r == step_of(self@),
    {
        if self.halted {
            Step::Done
        } else if !self.exhausted && self.active < self.width {
            Step::Pull
        } else if self.active > 0 {
            Step::Wait
        } else {
            Step::Done
        }
    }

    /// Records the event `e`; one that cannot happen now changes nothing.
    pub fn record(&mut self, e: Event)
        requires
            old(self).wf(),
        ensures
            final(self)@ == apply(old(self)@, e),
            final(self).wf(),
    {
        let pull = self.next_step() == Step::Pull;
        match e {
            Event::Admit => {
                if pull {
                    self.active = self.active + 1;
                    self.started = Ghost(self.started@ + 1);
                }
            },
            Event::Exhausted => {
                if pull {
                    self.exhausted = true;
                }
            },
            Event::Complete => {
                if !self.halted && self.active > 0 {
                    self.active = self.active - 1;
                    self.completed = Ghost(self.completed@ + 1);
                }
            },
            Event::Halt => {
                self.halted = true;
            },
        }
    }
}

proof fn lemma_apply_wf(m: ExecModel, e: Event)
    requires
        model_wf(m),
    ensures
        model_wf(apply(m, e)),
{
}

/// Every state that a pass of width `width` reaches keeps at most `width`
/// operations active, and each started operation is active or completed.
pub proof fn lemma_width_bound(width: nat, evs: Seq<Event>)
    requires
        width >= 1,
    ensures
        model_wf(run(width, evs)),
        run(width, evs).active <= width,
        run(width, evs).width == width,
    decreases evs.len(),
{
    if evs.len() > 0 {
        lemma_width_bound(width, evs.drop_last());
        lemma_apply_wf(run(width, evs.drop_last()), evs.last());
    }
}

proof fn lemma_halt_prefix(width: nat, evs: Seq<Event>, k: int, n: int)
    requires
        0 <= k < n <= evs.len(),
        evs[k] == Event::Halt,
    ensures
        run(width, evs.take(n)).halted,
        run(width, evs.take(n)).started == run(width, evs.take(k + 1)).started,
        run(width, evs.take(n)).active <= run(width, evs.take(k + 1)).active,
    decreases n - k,
{
    assert(evs.take(n).drop_last() =~= evs.take(n - 1));
    if n > k + 1 {
        lemma_halt_prefix(width, evs, k, n - 1);
    }
}

/// Once the consumer stops a pass, no further item is admitted and no
/// operation is started: what was started stays as it was at the stop.
pub proof fn lemma_halt_stops_admission(width: nat, evs: Seq<Event>, k: int)
    requires
        0 <= k < evs.len(),
        evs[k] == Event::Halt,
    ensures
        run(width, evs).halted,
        step_of(run(width, evs)) == Step::Done,
        run(width, evs).started == run(width, evs.take(k + 1)).started,
{
    lemma_halt_prefix(width, evs, k, evs.len() as int);
    assert(evs.take(evs.len() as int) =~= evs);
}

proof fn lemma_single_lane_prefix(evs: Seq<Event>, k: int, n: int)
    requires
        0 <= k < evs.len(),
        0 <= n <= evs.len(),
        evs[k] == Event::Complete,
        forall|j: int| 0 <= j < k ==> evs[j] != Event::Complete,
        k + 1 < evs.len() ==> evs[k + 1] == Event::Halt,
    ensures
        run(1, evs.take(n)).started <= 1,
        n <= k ==> run(1, evs.take(n)).completed == 0,
        n >= k + 2 ==> run(1, evs.take(n)).halted,
    decreases n,
{
    lemma_width_bound(1, evs.take(n));
    if n > 0 {
        lemma_single_lane_prefix(evs, k, n - 1);
        assert(evs.take(n).drop_last() =~= evs.take(n - 1));
        lemma_width_bound(1, evs.take(n - 1));
    }
}

/// At width one, when the consumer stops the pass right after the first
/// completion (the first outcome already decided the answer), at most one
/// operation is ever started, however many items upstream still holds.
pub proof fn lemma_single_lane_short_circuit(evs: Seq<Event>, k: int)
    requires
        0 <= k < evs.len(),
        evs[k] == Event::Complete,
        forall|j: int| 0 <= j < k ==> evs[j] != Event::Complete,
        k + 1 < evs.len() ==> evs[k + 1] == Event::Halt,
    ensures
        run(1, evs).started <= 1,
{
    lemma_single_lane_prefix(evs, k, evs.len() as int);
    assert(evs.take(evs.len() as int) =~= evs);
}

} // verus!
