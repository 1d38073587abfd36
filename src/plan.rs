//! The decisions of building and tearing down a pipeline: which units run,
//! where the last one writes, and in which order the units are waited for.
//! Spawning, pipes and waiting are done by the caller, one step at a time.
use vstd::prelude::*;
use crate::filter::Builtin;
use crate::pipe::{ParsedPipe, PipeAction, PipeCommand, PipeRegistry};
use crate::text::views;

verus! {

/// A unit of a running pipeline.
pub enum UnitPlan {
    /// An outside program and all its arguments.
    Process { binary: String, args: Vec<String> },
    /// A builtin filter run by a task, and its arguments.
    Task { rule: Builtin, args: Vec<String> },
}

/// What to build: the units from left to right, and whether the last one
/// writes into a pager rather than the terminal.
pub struct PipelinePlan {
    pub pager: bool,
    pub units: Vec<UnitPlan>,
}

/// One step of tearing a pipeline down.
#[derive(Clone, Copy, Debug, PartialEq, Eq, Structural)]
pub enum TeardownStep {
    /// Close the sink that the producer writes into.
    CloseEntry,
    /// Wait until unit `i` (counted from the left) has ended.
    Join(usize),
    /// Wait until the pager has ended.
    WaitPager,
}

/// The stage turns the pager off rather than running.
pub open spec fn is_no_more(c: PipeCommand) -> bool {
    c.action == PipeAction::Builtin(Builtin::NoMore)
}

/// `u` is the unit that runs stage `p` of command `c`.
pub open spec fn unit_for(u: UnitPlan, c: PipeCommand, p: ParsedPipe) -> bool {
    match c.action {
        PipeAction::Builtin(f) => u matches UnitPlan::Task { rule, args } && rule == f && views(args@) == views(p.args@),
        PipeAction::External { binary, fixed_args } => u matches UnitPlan::Process { binary: b, args }
            && b@ == binary@ && views(args@) == views(fixed_args@) + views(p.args@),
    }
}

/// Joining units `first` to `n - 1` from left to right, after closing
/// the entry, and the pager last.
pub open spec fn teardown_order(first: nat, n: nat, pager: bool) -> Seq<TeardownStep> {
    seq![TeardownStep::CloseEntry]
        + Seq::new((n - first) as nat, |i: int| TeardownStep::Join((first + i) as usize))
        + if pager { seq![TeardownStep::WaitPager] } else { Seq::empty() }
}

/// The first error among the outcomes, if any.
pub open spec fn first_error(outcomes: Seq<Option<Seq<char>>>) -> Option<Seq<char>>
    decreases outcomes.len(),
{
    if outcomes.len() == 0 {
        None
    } else {
        match first_error(outcomes.drop_last()) {
            Some(e) => Some(e),
            None => outcomes.last(),
        }
    }
}

fn copy_strings(v: &Vec<String>) -> (r: Vec<String>)
    ensures
        views(r@) == views(v@),
{
    let mut out: Vec<String> = Vec::new();
    let mut i: usize = 0;
    while i < v.len()
        invariant
            i <= v@.len(),
            views(out@) == views(v@).take(i as int),
        decreases v.len() - i,
    {
        let w = v[i].clone();
        proof {
            assert(views(out@.push(w)) =~= views(out@).push(w@));
            assert(views(v@).take(i + 1) =~= views(v@).take(i as int).push(v@[i as int]@));
        }
        out.push(w);
        i = i + 1;
    }
    proof {
        assert(views(v@).take(v@.len() as int) =~= views(v@));
    }
    out
}

fn unit_of(c: &PipeCommand, p: &ParsedPipe) -> (u: UnitPlan)
    ensures
        unit_for(u, *c, *p),
{
    match &c.action {
        PipeAction::Builtin(f) => UnitPlan::Task { rule: *f, args: copy_strings(&p.args) },
        PipeAction::External { binary, fixed_args } => {
            let mut args = copy_strings(fixed_args);
            let mut extra = copy_strings(&p.args);
            let ghost a0 = views(args@);
            let ghost e0 = views(extra@);
            args.append(&mut extra);
            proof {
                assert(views(args@) =~= a0 + e0);
            }
            UnitPlan::Process { binary: binary.clone(), args }
        },
    }
}

/// Decides what to build for `pipes`: one unit for each stage, in the
/// order typed, and a pager only where `use_pager` holds and no stage turns
/// it off. A stage that turns the pager off runs as a task that passes its
/// input on unchanged.
pub fn plan_pipeline(registry: &PipeRegistry, pipes: &Vec<ParsedPipe>, use_pager: bool) -> (r: PipelinePlan)
    requires
        forall|i: int| 0 <= i < pipes@.len() ==> (#[trigger] pipes@[i]).command_idx < registry@.len(),
    ensures
        r.pager == (use_pager && forall|i: int| 0 <= i < pipes@.len() ==> !is_no_more(#[trigger] registry@[pipes@[i].command_idx as int])),
        r.units@.len() == pipes@.len(),
        forall|i: int| 0 <= i < r.units@.len() ==> unit_for(
            #[trigger] r.units@[i],
            registry@[pipes@[i].command_idx as int],
            pipes@[i],
        ),
{
    let cmds = registry.commands();
    let mut units: Vec<UnitPlan> = Vec::new();
    let mut pager = use_pager;
    let mut i: usize = 0;
    while i < pipes.len()
        invariant
            cmds@ == registry@,
            i <= pipes@.len(),
            forall|j: int| 0 <= j < pipes@.len() ==> (#[trigger] pipes@[j]).command_idx < registry@.len(),
            pager == (use_pager && forall|j: int| 0 <= j < i ==> !is_no_more(#[trigger] registry@[pipes@[j].command_idx as int])),
            units@.len() == i,
            forall|j: int| 0 <= j < i ==> unit_for(
                #[trigger] units@[j],
                registry@[pipes@[j].command_idx as int],
                pipes@[j],
            ),
        decreases pipes.len() - i,
    {
        let p = &pipes[i];
        let c = &cmds[p.command_idx];
        let off = match c.action {
            PipeAction::Builtin(Builtin::NoMore) => true,
            _ => false,
        };
        if off {
            pager = false;
        }
        let u = unit_of(c, p);
        units.push(u);
        i = i + 1;
    }
    PipelinePlan { pager, units }
}

/// The steps that tear down units `first` to `n - 1`: close the entry,
/// join the units from left to right, then wait for the pager. Each unit
/// ends only after the one before it has closed its output, so this is the
/// order in which they can end; the pager comes last so that it sees the
/// end of its input only after every unit has written all it had.
/// After a failed build, `first` is the leftmost unit that was built.
pub fn teardown_steps(first: usize, n: usize, pager: bool) -> (r: Vec<TeardownStep>)
    requires
        first <= n,
    ensures
        r@ == teardown_order(first as nat, n as nat, pager),
{
    let mut r: Vec<TeardownStep> = Vec::new();
    r.push(TeardownStep::CloseEntry);
    let mut i: usize = first;
    while i < n
        invariant
            first <= i <= n,
            r@ == seq![TeardownStep::CloseEntry]
                + Seq::new((i - first) as nat, |k: int| TeardownStep::Join((first + k) as usize)),
        decreases n - i,
    {
        r.push(TeardownStep::Join(i));
        i = i + 1;
        proof {
            assert(r@ =~= seq![TeardownStep::CloseEntry]
                + Seq::new((i - first) as nat, |k: int| TeardownStep::Join((first + k) as usize)));
        }
    }
    if pager {
        r.push(TeardownStep::WaitPager);
    }
    proof {
        assert(r@ =~= teardown_order(first as nat, n as nat, pager));
    }
    r
}

/// Every unit is joined exactly once, after the entry is closed and
/// before the pager is waited for; the pager is waited for last.
pub proof fn lemma_teardown_order(first: nat, n: nat, pager: bool)
    requires
        first <= n <= usize::MAX,
    ensures
        teardown_order(first, n, pager)[0] == TeardownStep::CloseEntry,
        forall|u: int| first <= u < n ==> #[trigger] teardown_order(first, n, pager)[u - first + 1] == TeardownStep::Join(u as usize),
        forall|k: int| 0 <= k < teardown_order(first, n, pager).len() ==>
            (#[trigger] teardown_order(first, n, pager)[k] matches TeardownStep::Join(u)
                ==> first <= u < n && k == u - first + 1),
        pager ==> teardown_order(first, n, pager).last() == TeardownStep::WaitPager,
        forall|k: int| 0 <= k < teardown_order(first, n, pager).len() - 1 ==>
            #[trigger] teardown_order(first, n, pager)[k] != TeardownStep::WaitPager,
        teardown_order(first, n, pager).len() == n - first + 1 + (if pager { 1int } else { 0int }),
{
    let t = teardown_order(first, n, pager);
    let joins = Seq::new((n - first) as nat, |i: int| TeardownStep::Join((first + i) as usize));
    assert forall|k: int| 1 <= k < 1 + joins.len() implies t[k] == TeardownStep::Join((first + k - 1) as usize) by {
        assert(t[k] == joins[k - 1]);
    }
    assert forall|k: int| 0 <= k < t.len() implies (#[trigger] t[k] matches TeardownStep::Join(u)
        ==> first <= u < n && k == u - first + 1) by {
        if 1 <= k < 1 + joins.len() {
            assert(t[k] == joins[k - 1]);
        }
    }
    assert forall|u: int| first <= u < n implies #[trigger] t[u - first + 1] == TeardownStep::Join(u as usize) by {
        assert(t[u - first + 1] == joins[u - first]);
    }
}

/// Tearing a pipeline down, one step at a time. The caller performs each
/// step and reports how it went; the first error is the one kept.
pub struct Teardown {
    steps: Vec<TeardownStep>,
    next: usize,
    error: Option<String>,
    outcomes: Ghost<Seq<Option<Seq<char>>>>,
}

impl Teardown {
    pub closed spec fn steps(&self) -> Seq<TeardownStep> {
        self.steps@
    }

    /// How each step that was performed went: `None` for success.
    pub closed spec fn outcomes(&self) -> Seq<Option<Seq<char>>> {
        self.outcomes@
    }

    pub closed spec fn wf(&self) -> bool {
        &&& self.next as int == self.outcomes@.len()
        &&& self.outcomes@.len() <= self.steps@.len()
        &&& match self.error {
            Some(e) => first_error(self.outcomes@) == Some(e@),
            None => first_error(self.outcomes@) is None,
        }
    }

    /// The teardown of units `first` to `n - 1`, and of the pager if
    /// there is one.
    pub fn new(first: usize, n: usize, pager: bool) -> (r: Teardown)
        requires
            first <= n,
        ensures
            r.wf(),
            r.steps() == teardown_order(first as nat, n as nat, pager),
            r.outcomes().len() == 0,
    {
        Teardown {
            steps: teardown_steps(first, n, pager),
            next: 0,
            error: None,
            outcomes: Ghost(Seq::empty()),
        }
    }

    /// The step to perform next, or `None` when all are done.
    pub fn next_step(&self) -> (r: Option<TeardownStep>)
        requires
            self.wf(),
        ensures
            r == (if self.outcomes().len() < self.steps().len() {
                Some(self.steps()[self.outcomes().len() as int])
            } else {
                None
            }),
    {
        if self.next < self.steps.len() {
            Some(self.steps[self.next])
        } else {
            None
        }
    }

    /// Reports how the step that `next_step` gave went.
    pub fn record(&mut self, outcome: Result<(), String>)
        requires
            old(self).wf(),
            old(self).outcomes().len() < old(self).steps().len(),
        ensures
            final(self).wf(),
            final(self).steps() == old(self).steps(),
            final(self).outcomes() == old(self).outcomes().push(match outcome {
                Ok(()) => None,
                Err(e) => Some(e@),
            }),
    {
        let ghost o = match &outcome {
            Ok(()) => None,
            Err(e) => Some(e@),
        };
        let ghost before = self.outcomes@;
        proof {
            assert(before.push(o).drop_last() =~= before);
        }
        if self.error.is_none() {
            match outcome {
                Ok(()) => {},
                Err(e) => {
                    self.error = Some(e);
                },
            }
        }
        assert(self.next < self.steps.len());
        self.next = self.next + 1;
        self.outcomes = Ghost(before.push(o));
    }

    /// The first error reported, if any.
    pub fn result(&self) -> (r: Result<(), String>)
        requires
            self.wf(),
        ensures
            r is Ok <==> first_error(self.outcomes()) is None,
            r matches Err(e) ==> first_error(self.outcomes()) == Some(e@),
    {
        match &self.error {
            Some(e) => Err(e.clone()),
            None => Ok(()),
        }
    }
}

} // verus!
