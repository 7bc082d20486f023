//! The branch scheduler: a best-first frontier over partial computations
//! of the non-deterministic machine, bounded by a step budget.
//!
//! Each branch owns a tape, a state and a depth. The scheduler repeatedly
//! serves the most promising branch: one with a pending transition first,
//! otherwise the lowest depth-plus-distance (the admissible heuristic from
//! the rule store), ties going to the oldest identifier so that runs are
//! reproducible.

use crate::rules::{Input, Output, RuleStore, Transition};
use crate::tape::Tape;
use vstd::prelude::*;

verus! {

/// One branch of the exploration: an independent computation with its own
/// tape, current state, depth (steps taken), the cached distance of its
/// state to a final state, a unique identifier, and possibly a pending
/// transition: a deterministic rule looked up but not yet applied.
pub struct TM {
    pub depth: usize,
    pub idx: usize,
    pub tape: Tape,
    pub state: usize,
    pub distance: usize,
    pub instr_cache: Option<Transition>,
}

/// What one branch step reports.
pub enum TMStepRes {
    /// Successfully transitioned.
    Success,
    /// No transition available: the branch is dead.
    Failure,
    /// A move is available but non-deterministic; the scheduler must
    /// split the branch, one child per transition.
    Split(Vec<Transition>),
    /// The branch reached a final state.
    Recognized,
}

/// The distance the store assigns to a state; a state with no path to a
/// final state reads as the largest value, the least promising.
pub open spec fn dist_of(rules: RuleStore, s: usize) -> usize {
    if rules.dist_map().dom().contains(s) {
        rules.dist_map()[s]
    } else {
        usize::MAX
    }
}

/// The branch `f` is `o` after applying transition `t`: one step deeper,
/// in the transition's state with its distance refreshed, the pending
/// slot cleared, and the tape written and shifted as the transition says.
pub open spec fn applied(o: TM, f: TM, t: Transition, rules: RuleStore) -> bool {
    &&& f.state == t.state
    &&& f.depth == o.depth + 1
    &&& f.idx == o.idx
    &&& f.distance == dist_of(rules, t.state)
    &&& f.instr_cache is None
    &&& f.tape.wf()
    &&& f.tape@ == o.tape@.written(t.symb).shifted(t.dir)
}

/// The transition the branch will apply on its next step, if that step is
/// determined: the pending one, or the single rule for what it reads.
pub open spec fn pending_or_rule(o: TM, rules: RuleStore) -> Option<Transition> {
    if o.instr_cache is Some {
        o.instr_cache
    } else {
        let key = Input { state: o.state, symb: o.tape@.read() };
        if rules.rule_map().dom().contains(key) && rules.rule_map()[key].len() == 1 {
            Some(rules.rule_map()[key][0])
        } else {
            None
        }
    }
}

/// The saturating sum of depth and distance: the branch's cost estimate.
pub open spec fn cost_of(m: TM) -> int {
    if m.depth + m.distance > usize::MAX {
        usize::MAX as int
    } else {
        m.depth + m.distance
    }
}

/// `a` is served strictly before `b`: a pending transition outranks
/// everything, then the lower cost estimate, then the older identifier.
pub open spec fn ranks_before(a: TM, b: TM) -> bool {
    let ca: int = if a.instr_cache is Some {
        0
    } else {
        1
    };
    let cb: int = if b.instr_cache is Some {
        0
    } else {
        1
    };
    ||| ca < cb
    ||| (ca == cb && ca == 1 && cost_of(a) < cost_of(b))
    ||| (ca == cb && (ca == 0 || cost_of(a) == cost_of(b)) && a.idx < b.idx)
}

impl TM {
    /// A branch from its parts.
    pub fn new(
        tape: Tape,
        state: usize,
        rule: Option<Transition>,
        id: usize,
        depth: usize,
        dist: usize,
    ) -> (m: TM)
        ensures
            m == (TM { depth, idx: id, tape, state, distance: dist, instr_cache: rule }),
    {
        TM { idx: id, tape, state, instr_cache: rule, depth, distance: dist }
    }

    /// Apply one transition to the branch.
    fn apply(&mut self, trs: Transition, rules: &RuleStore) -> (r: TMStepRes)
        requires
            old(self).tape.wf(),
            rules.wf(),
            old(self).depth < usize::MAX,
            old(self).instr_cache is None,
        ensures
            applied(*old(self), *final(self), trs, *rules),
            r == (if rules.fin_set().contains(trs.state) {
                TMStepRes::Recognized
            } else {
                TMStepRes::Success
            }),
    {
        self.depth = self.depth + 1;
        self.state = trs.state;
        self.distance = rules.distance(self.state);
        self.tape.write(trs.symb);
        self.tape.shift(trs.dir);
        if rules.is_final(self.state) {
            TMStepRes::Recognized
        } else {
            TMStepRes::Success
        }
    }

    /// Advance the branch one step. A pending transition is applied
    /// outright; otherwise the table decides: no rule kills the branch, a
    /// single rule is applied at once, and a non-deterministic choice is
    /// handed back for the scheduler to split.
    pub fn step(&mut self, rules: &RuleStore) -> (r: TMStepRes)
        requires
            old(self).tape.wf(),
            rules.wf(),
            old(self).depth < usize::MAX,
        ensures
            final(self).tape.wf(),
            match pending_or_rule(*old(self), *rules) {
                Some(t) => {
                    &&& applied(*old(self), *final(self), t, *rules)
                    &&& r == (if rules.fin_set().contains(t.state) {
                        TMStepRes::Recognized
                    } else {
                        TMStepRes::Success
                    })
                },
                None => {
                    let key = Input {
                        state: old(self).state,
                        symb: old(self).tape@.read(),
                    };
                    &&& *final(self) == *old(self)
                    &&& if !rules.rule_map().dom().contains(key) {
                        r == TMStepRes::Failure
                    } else {
                        (r matches TMStepRes::Split(ts) && ts@ == rules.rule_map()[key]
                            && ts@.len() >= 2)
                    }
                },
            },
    {
        let pending = self.instr_cache;
        match pending {
            Some(trs) => {
                self.instr_cache = None;
                self.apply(trs, rules)
            }
            None => {
                let symb = self.tape.read();
                let rule = rules.get(self.state, symb);
                match rule {
                    Output::NoRule => TMStepRes::Failure,
                    Output::Simple(trs) => self.apply(trs, rules),
                    Output::Multi(trs) => TMStepRes::Split(trs),
                }
            }
        }
    }

    /// Consume the branch for a split: its state and depth pass to every
    /// child, and the tape is split into `num` independent copies. A
    /// branch with a pending transition must not be split: that queued
    /// work would be discarded.
    pub fn split(self, num: usize) -> (r: (usize, usize, Vec<Tape>))
        requires
            self.tape.wf(),
            self.instr_cache is None,
        ensures
            r.0 == self.state,
            r.1 == self.depth,
            r.2@.len() == num,
            forall|j: int| 0 <= j < num ==> (#[trigger] r.2@[j]).wf(),
            forall|j: int| 0 <= j < num ==> (#[trigger] r.2@[j])@ == self.tape@,
    {
        (self.state, self.depth, self.tape.split(num))
    }
}

/// The index `pop` serves from a frontier: the first branch that no later
/// branch strictly outranks.
pub open spec fn best_of(s: Seq<TM>) -> int
    decreases s.len(),
{
    if s.len() <= 1 {
        0
    } else {
        let b = best_of(s.drop_last());
        if ranks_before(s.last(), s[b]) {
            s.len() - 1
        } else {
            b
        }
    }
}

/// `best_of` names a position, and nothing in the frontier strictly
/// outranks the branch there.
pub proof fn lemma_best_of(s: Seq<TM>)
    requires
        s.len() > 0,
    ensures
        0 <= best_of(s) < s.len(),
        forall|j: int| 0 <= j < s.len() ==> !ranks_before(#[trigger] s[j], s[best_of(s)]),
    decreases s.len(),
{
    if s.len() > 1 {
        lemma_best_of(s.drop_last());
        assert forall|j: int|
            0 <= j < s.len() implies !ranks_before(#[trigger] s[j], s[best_of(s)]) by {
            if j < s.len() - 1 {
                assert(s.drop_last()[j] == s[j]);
                assert(s.drop_last()[best_of(s.drop_last())] == s[best_of(s.drop_last())]);
            }
        }
    }
}

/// The frontier of live branches, served best first.
pub struct MachineStore {
    heap: Vec<TM>,
}

impl MachineStore {
    /// The queued branches, in arrival order.
    pub closed spec fn machines(self) -> Seq<TM> {
        self.heap@
    }

    /// An empty frontier.
    pub fn new() -> (s: MachineStore)
        ensures
            s.machines() == Seq::<TM>::empty(),
    {
        let s = MachineStore { heap: Vec::new() };
        proof {
            assert(s.machines() =~= Seq::<TM>::empty());
        }
        s
    }

    /// Queue a branch.
    pub fn push(&mut self, machine: TM)
        ensures
            final(self).machines() == old(self).machines().push(machine),
    {
        self.heap.push(machine);
    }

    /// Serve the best-ranked branch: a pending transition first, then the
    /// lowest depth-plus-distance, then the oldest identifier.
    pub fn pop(&mut self) -> (r: Option<TM>)
        ensures
            old(self).machines().len() == 0 ==> r is None && final(self).machines() == old(self).machines(),
            old(self).machines().len() > 0 ==> {
                let q = old(self).machines();
                let i = best_of(q);
                &&& r == Some(q[i])
                &&& final(self).machines() == q.remove(i)
                &&& forall|j: int| 0 <= j < q.len() ==> !ranks_before(#[trigger] q[j], q[i])
            },
    {
        if self.heap.len() == 0 {
            return None;
        }
        let ghost q = self.heap@;
        let mut best: usize = 0;
        let mut j: usize = 1;
        while j < self.heap.len()
            invariant
                1 <= j <= self.heap@.len(),
                self.heap@.len() > 0,
                best < j,
                best == best_of(self.heap@.take(j as int)),
            decreases self.heap@.len() - j,
        {
            proof {
                assert(self.heap@.take(j + 1 as int).drop_last() =~= self.heap@.take(j as int));
                assert(self.heap@.take(j + 1 as int).last() == self.heap@[j as int]);
            }
            if ranks_before_exec(&self.heap[j], &self.heap[best]) {
                best = j;
            }
            j = j + 1;
        }
        proof {
            assert(self.heap@.take(self.heap@.len() as int) =~= self.heap@);
            lemma_best_of(self.heap@);
        }
        let m = self.heap.remove(best);
        Some(m)
    }
}

/// Does `a` rank strictly before `b`?
fn ranks_before_exec(a: &TM, b: &TM) -> (r: bool)
    ensures
        r == ranks_before(*a, *b),
{
    let a_pending = a.instr_cache.is_some();
    let b_pending = b.instr_cache.is_some();
    if a_pending && !b_pending {
        true
    } else if !a_pending && b_pending {
        false
    } else if a_pending && b_pending {
        a.idx < b.idx
    } else {
        let ca = sat_add(a.depth, a.distance);
        let cb = sat_add(b.depth, b.distance);
        if ca < cb {
            true
        } else if ca == cb {
            a.idx < b.idx
        } else {
            false
        }
    }
}

/// What one scheduler step reports, naming the branches involved.
#[derive(Debug)]
pub enum StepResult {
    /// A branch reached the step budget and was dropped unexplored.
    Undecided { machine: usize },
    /// A branch advanced one deterministic step and was requeued.
    DetStep { machine: usize },
    /// A branch met a non-deterministic choice and was split into the
    /// freshly numbered children.
    Split { source: usize, new: Vec<usize> },
    /// A branch had no rule to follow and was dropped.
    BranchFail { machine: usize },
    /// A branch reached a final state: the input is accepted.
    Success { machine: usize },
    /// No branch is left: the machine cannot accept.
    FailAll,
}

/// The per-input decision.
#[derive(Copy, Clone, PartialEq, Eq, Structural, Debug)]
pub enum Verdict {
    /// Some branch reached a final state.
    Success,
    /// Every branch died with no rule to follow.
    Failure,
    /// No branch accepted, and at least one was cut off by the budget.
    Undecided,
}

/// Every rule of the table is deterministic: no key offers a choice.
pub open spec fn deterministic_rules(rules: RuleStore) -> bool {
    forall|k: Input|
        rules.rule_map().dom().contains(k) ==> (#[trigger] rules.rule_map()[k]).len() <= 1
}

/// What one scheduler step does: the complete relation between the state
/// before (`pre`), the state after (`post`) and the reported result. Each
/// possible pre-state forces its result variant, and each variant pins
/// how the frontier changed.
pub open spec fn step_rel<'a>(pre: NDTM<'a>, post: NDTM<'a>, r: StepResult) -> bool {
    &&& post.budget() == pre.budget()
    &&& post.rules_of() == pre.rules_of()
    &&& post.undecided_flag() == (pre.undecided_flag() || r matches StepResult::Undecided {
        ..
    })
    &&& ((r matches StepResult::FailAll) <==> pre.queue().len() == 0)
    &&& (r matches StepResult::FailAll ==> post.queue() == pre.queue() && post.last_id()
        == pre.last_id())
    &&& (!(r matches StepResult::Split { .. }) ==> post.queue().len() <= pre.queue().len())
    &&& (pre.rules_of().fin_set().is_empty() ==> !(r matches StepResult::Success { .. }))
    &&& (deterministic_rules(pre.rules_of()) && pre.queue().len() <= 1 ==> post.queue().len()
        <= 1)
    &&& (pre.queue().len() > 0 ==> {
        let q = pre.queue();
        let m = q[best_of(q)];
        let rules = pre.rules_of();
        &&& (m.depth >= pre.budget() ==> r matches StepResult::Undecided { .. })
        &&& (m.depth < pre.budget() ==> (match pending_or_rule(m, rules) {
            Some(t) => if rules.fin_set().contains(t.state) {
                r matches StepResult::Success { .. }
            } else {
                r matches StepResult::DetStep { .. }
            },
            None => {
                let key = Input { state: m.state, symb: m.tape@.read() };
                if !rules.rule_map().dom().contains(key) {
                    r matches StepResult::BranchFail { .. }
                } else if rules.rule_map()[key].len() <= usize::MAX - pre.last_id() {
                    r matches StepResult::Split { .. }
                } else {
                    // The identifier space cannot number the children:
                    // the branch is dropped instead of split.
                    r matches StepResult::BranchFail { .. }
                }
            },
        }))
    })
    &&& (r matches StepResult::Undecided { machine } ==> {
        let q = pre.queue();
        let i = best_of(q);
        &&& machine == q[i].idx
        &&& q[i].depth >= pre.budget()
        &&& post.queue() == q.remove(i)
        &&& post.last_id() == pre.last_id()
    })
    &&& (r matches StepResult::Success { machine } ==> {
        let q = pre.queue();
        let i = best_of(q);
        &&& machine == q[i].idx
        &&& (pending_or_rule(q[i], pre.rules_of()) matches Some(t)
            && pre.rules_of().fin_set().contains(t.state))
        &&& post.queue() == q.remove(i)
        &&& post.last_id() == pre.last_id()
    })
    &&& (r matches StepResult::DetStep { machine } ==> {
        let q = pre.queue();
        let i = best_of(q);
        &&& machine == q[i].idx
        &&& (pending_or_rule(q[i], pre.rules_of()) matches Some(t)
            && !pre.rules_of().fin_set().contains(t.state) && exists|f: TM|
            #![auto]
            applied(q[i], f, t, pre.rules_of()) && post.queue() == q.remove(i).push(f))
        &&& post.last_id() == pre.last_id()
    })
    &&& (r matches StepResult::BranchFail { machine } ==> {
        let q = pre.queue();
        let i = best_of(q);
        &&& machine == q[i].idx
        &&& pending_or_rule(q[i], pre.rules_of()) is None
        &&& post.queue() == q.remove(i)
        &&& post.last_id() == pre.last_id()
    })
    &&& (r matches StepResult::Split { source, new } ==> {
        let q = pre.queue();
        let i = best_of(q);
        let key = Input { state: q[i].state, symb: q[i].tape@.read() };
        let ts = pre.rules_of().rule_map()[key];
        &&& source == q[i].idx
        &&& q[i].instr_cache is None
        &&& pre.rules_of().rule_map().dom().contains(key)
        &&& ts.len() >= 2
        &&& new@.len() == ts.len()
        &&& post.last_id() == pre.last_id() + ts.len()
        &&& post.queue().len() == q.len() - 1 + ts.len()
        &&& (forall|j: int| 0 <= j < q.len() - 1 ==> post.queue()[j] == q.remove(i)[j])
        &&& (forall|j: int|
            0 <= j < ts.len() ==> {
                let c = #[trigger] post.queue()[q.len() - 1 + j];
                &&& c.state == q[i].state
                &&& c.depth == q[i].depth
                &&& c.idx == pre.last_id() + 1 + j
                &&& c.instr_cache == Some(ts[j])
                &&& c.distance == dist_of(pre.rules_of(), q[i].state)
                &&& c.tape@ == q[i].tape@
                &&& new@[j] == c.idx
            })
    })
}

/// A scheduler trace: consecutive states linked by the step relation,
/// one result per step.
pub open spec fn steps_trace<'a>(ss: Seq<NDTM<'a>>, rs: Seq<StepResult>) -> bool {
    &&& ss.len() == rs.len() + 1
    &&& forall|i: int| 0 <= i < rs.len() ==> step_rel(#[trigger] ss[i], ss[i + 1], rs[i])
}

/// A freshly seeded scheduler: one branch at depth 0 in state 0 over a
/// tape denoting `tv`, under the given rules and budget.
pub open spec fn seeded<'a>(nd: NDTM<'a>, rules: RuleStore, budget: usize, tv: crate::tape::TapeModel) -> bool {
    &&& nd.budget() == budget
    &&& nd.rules_of() == rules
    &&& !nd.undecided_flag()
    &&& nd.last_id() == 0
    &&& nd.queue().len() == 1
    &&& nd.queue()[0].state == 0
    &&& nd.queue()[0].depth == 0
    &&& nd.queue()[0].idx == 0
    &&& nd.queue()[0].instr_cache is None
    &&& nd.queue()[0].distance == dist_of(rules, 0)
    &&& nd.queue()[0].tape@ == tv
}

/// The scheduler: a frontier of branches over one shared rule store, the
/// last identifier handed out, the step budget, and whether some branch
/// was dropped for reaching it.
pub struct NDTM<'a> {
    rules: &'a RuleStore,
    machines: MachineStore,
    /// The last index used to number a machine.
    last_idx: usize,
    pub some_undecided: bool,
    max_step: usize,
}

impl<'a> NDTM<'a> {
    /// The queued branches.
    pub closed spec fn queue(self) -> Seq<TM> {
        self.machines.machines()
    }

    /// The step budget.
    pub closed spec fn budget(self) -> usize {
        self.max_step
    }

    /// The rule store the run consults.
    pub closed spec fn rules_of(self) -> RuleStore {
        *self.rules
    }

    /// The last branch identifier handed out.
    pub closed spec fn last_id(self) -> usize {
        self.last_idx
    }

    /// Was some branch dropped for reaching the step budget?
    pub closed spec fn undecided_flag(self) -> bool {
        self.some_undecided
    }

    /// Internal invariant: sound rules, every queued branch with a
    /// well-formed tape, a depth within the budget, a distance that
    /// matches its state, an identifier that was handed out, no two
    /// branches under one identifier, and pending work only below the
    /// budget.
    pub closed spec fn wf(self) -> bool {
        &&& self.rules.wf()
        &&& (forall|i: int|
            0 <= i < self.queue().len() ==> (#[trigger] self.queue()[i]).tape.wf())
        &&& (forall|i: int|
            0 <= i < self.queue().len() ==> (#[trigger] self.queue()[i]).depth
                <= self.max_step)
        &&& (forall|i: int|
            0 <= i < self.queue().len() ==> (#[trigger] self.queue()[i]).idx <= self.last_idx)
        &&& (forall|i: int, j: int|
            0 <= i < j < self.queue().len() ==> (#[trigger] self.queue()[i]).idx != (
            #[trigger] self.queue()[j]).idx)
        &&& (forall|i: int|
            0 <= i < self.queue().len() && (#[trigger] self.queue()[i]).instr_cache is Some
                ==> self.queue()[i].depth < self.max_step)
    }

    /// Seed the scheduler: one branch at depth 0 in state 0 over the
    /// given tape, with no pending transition.
    pub fn new(tape: Tape, rules: &'a RuleStore, max: usize) -> (nd: NDTM<'a>)
        requires
            tape.wf(),
            rules.wf(),
        ensures
            nd.wf(),
            nd.budget() == max,
            nd.rules_of() == *rules,
            !nd.undecided_flag(),
            nd.last_id() == 0,
            nd.queue().len() == 1,
            nd.queue()[0].state == 0,
            nd.queue()[0].depth == 0,
            nd.queue()[0].idx == 0,
            nd.queue()[0].instr_cache is None,
            nd.queue()[0].distance == dist_of(*rules, 0),
            nd.queue()[0].tape@ == tape@,
    {
        let ghost tv = tape@;
        let mut store = MachineStore::new();
        let dist = rules.distance(0);
        let first = TM::new(tape, 0, Option::None, 0, 0, dist);
        store.push(first);
        NDTM { rules, last_idx: 0, machines: store, some_undecided: false, max_step: max }
    }

    /// Serve one scheduler step: pop the best-ranked branch; a branch at
    /// the budget is dropped as undecided, one that advances is requeued,
    /// one that accepts ends the run, a dead one is dropped, and a
    /// non-deterministic one is split into freshly numbered children, one
    /// per transition, pushed in rule order.
    pub fn step(&mut self) -> (r: StepResult)
        requires
            old(self).wf(),
        ensures
            final(self).wf(),
            step_rel(*old(self), *final(self), r),
    {
        let ghost q = self.queue();
        let machine = self.machines.pop();
        match machine {
            None => StepResult::FailAll,
            Some(mut machine) => {
                proof {
                    lemma_best_of(q);
                }
                let ghost i = best_of(q);
                let id = machine.idx;
                if machine.depth >= self.max_step {
                    self.some_undecided = true;
                    proof {
                        q.remove_ensures(i);
                    }
                    return StepResult::Undecided { machine: id };
                }
                let step_res = machine.step(self.rules);
                proof {
                    q.remove_ensures(i);
                }
                match step_res {
                    TMStepRes::Success => {
                        self.machines.push(machine);
                        StepResult::DetStep { machine: id }
                    }
                    TMStepRes::Failure => StepResult::BranchFail { machine: id },
                    TMStepRes::Recognized => StepResult::Success { machine: id },
                    TMStepRes::Split(trs) => {
                        let n = trs.len();
                        if n > usize::MAX - self.last_idx {
                            // The identifier space is exhausted: the
                            // branch cannot be split and is dropped.
                            return StepResult::BranchFail { machine: id };
                        }
                        let ghost m0 = q[i];
                        let (state, depth, mut split_tapes) = machine.split(n);
                        let dist = self.rules.distance(state);
                        let mut ret: Vec<usize> = Vec::new();
                        let mut j: usize = 0;
                        while j < n
                            invariant
                                j <= n,
                                n == trs@.len(),
                                n >= 2,
                                0 <= i < q.len(),
                                q == old(self).queue(),
                                old(self).wf(),
                                m0 == q[i],
                                self.rules.wf(),
                                split_tapes@.len() == n - j,
                                forall|x: int|
                                    0 <= x < split_tapes@.len() ==> (
                                #[trigger] split_tapes@[x]).wf() && split_tapes@[x]@
                                    == m0.tape@,
                                ret@.len() == j,
                                self.last_idx == old(self).last_id() + j,
                                self.last_idx + (n - j) <= usize::MAX,
                                self.max_step == old(self).budget(),
                                self.rules == old(self).rules,
                                self.some_undecided == old(self).some_undecided,
                                state == m0.state,
                                depth == m0.depth,
                                depth < old(self).budget(),
                                dist == dist_of(*self.rules, state),
                                self.machines.machines().len() == q.remove(i).len() + j,
                                forall|x: int|
                                    0 <= x < q.len() - 1 ==> self.machines.machines()[x]
                                        == q.remove(i)[x],
                                forall|x: int|
                                    0 <= x < j ==> {
                                        let c =
                                        #[trigger] self.machines.machines()[q.len() - 1 + x];
                                        &&& c.state == m0.state
                                        &&& c.depth == m0.depth
                                        &&& c.idx == old(self).last_id() + 1 + x
                                        &&& c.instr_cache == Some(trs@[x])
                                        &&& c.tape.wf()
                                        &&& c.tape@ == m0.tape@
                                        &&& c.distance == dist_of(*self.rules, m0.state)
                                        &&& ret@[x] == c.idx
                                    },
                            decreases n - j,
                        {
                            self.last_idx = self.last_idx + 1;
                            let trans = trs[j];
                            let tape_j = match split_tapes.pop() {
                                Some(t) => t,
                                None => vstd::pervasive::unreached(),
                            };
                            let tm = TM::new(
                                tape_j,
                                state,
                                Some(trans),
                                self.last_idx,
                                depth,
                                dist,
                            );
                            ret.push(self.last_idx);
                            self.machines.push(tm);
                            proof {
                                q.remove_ensures(i);
                            }
                            j = j + 1;
                        }
                        proof {
                            q.remove_ensures(i);
                            let fq = self.machines.machines();
                            assert forall|a: int, b: int|
                                0 <= a < b < fq.len() implies (#[trigger] fq[a]).idx != (
                            #[trigger] fq[b]).idx by {
                                if b < q.len() - 1 {
                                    assert(fq[a] == q.remove(i)[a]);
                                    assert(fq[b] == q.remove(i)[b]);
                                    assert(fq[a] == (if a < i {
                                        q[a]
                                    } else {
                                        q[a + 1]
                                    }));
                                    assert(fq[b] == (if b < i {
                                        q[b]
                                    } else {
                                        q[b + 1]
                                    }));
                                } else if a < q.len() - 1 {
                                    assert(fq[a] == q.remove(i)[a]);
                                    assert(fq[a] == (if a < i {
                                        q[a]
                                    } else {
                                        q[a + 1]
                                    }));
                                    assert(fq[a].idx <= old(self).last_id());
                                    let xb = b - (q.len() - 1);
                                    assert(fq[q.len() - 1 + xb].idx == old(self).last_id() + 1
                                        + xb);
                                } else {
                                    let xa = a - (q.len() - 1);
                                    let xb = b - (q.len() - 1);
                                    assert(fq[q.len() - 1 + xa].idx == old(self).last_id() + 1
                                        + xa);
                                    assert(fq[q.len() - 1 + xb].idx == old(self).last_id() + 1
                                        + xb);
                                }
                            }
                            assert forall|a: int|
                                0 <= a < fq.len() implies (#[trigger] fq[a]).tape.wf()
                                && fq[a].depth <= self.max_step
                                && fq[a].idx <= self.last_idx
                                && (fq[a].instr_cache is Some ==> fq[a].depth
                                < self.max_step) by {
                                if a < q.len() - 1 {
                                    assert(fq[a] == q.remove(i)[a]);
                                    assert(fq[a] == (if a < i {
                                        q[a]
                                    } else {
                                        q[a + 1]
                                    }));
                                } else {
                                    let xa = a - (q.len() - 1);
                                    assert(fq[q.len() - 1 + xa].instr_cache == Some(
                                        trs@[xa],
                                    ));
                                    assert(fq[q.len() - 1 + xa].depth == m0.depth);
                                    assert(fq[q.len() - 1 + xa].idx == old(self).last_id() + 1
                                        + xa);
                                    assert(fq[q.len() - 1 + xa].tape.wf());
                                }
                            }
                            assert(self.wf());
                        }
                        StepResult::Split { source: id, new: ret }
                    }
                }
            }
        }
    }
}

/// The upper bound on scheduler iterations a caller asked for; with no
/// bound, iterations are capped only by the address space.
pub open spec fn iter_cap(steps: Option<usize>) -> int {
    match steps {
        Some(m) => m as int,
        None => usize::MAX as int,
    }
}

impl<'a> NDTM<'a> {
    /// Run the scheduler until a branch accepts, every branch is gone, or
    /// `steps` iterations have been served, returning every step result in
    /// order. The undecided flag ends up set exactly when some served
    /// branch was dropped for reaching the budget, here or before.
    pub fn fastforward(&mut self, steps: Option<usize>) -> (r: Vec<StepResult>)
        requires
            old(self).wf(),
        ensures
            final(self).wf(),
            final(self).budget() == old(self).budget(),
            final(self).rules_of() == old(self).rules_of(),
            r@.len() <= iter_cap(steps),
            final(self).undecided_flag() == (old(self).undecided_flag() || exists|i: int|
                0 <= i < r@.len() && (#[trigger] r@[i]) matches StepResult::Undecided { .. }),
            forall|i: int|
                0 <= i < r@.len() - 1 ==> !((#[trigger] r@[i]) matches StepResult::Success {
                    ..
                }) && !(r@[i] matches StepResult::FailAll),
            r@.len() < iter_cap(steps) ==> r@.len() > 0 && ((r@.last() matches
                StepResult::Success { .. }) || r@.last() matches StepResult::FailAll),
            r@.len() > 0 && (r@.last() matches StepResult::FailAll) ==> final(self).queue().len() == 0,
            old(self).rules_of().fin_set().is_empty() ==> forall|i: int|
                0 <= i < r@.len() ==> !((#[trigger] r@[i]) matches StepResult::Success { .. }),
            exists|ss: Seq<NDTM<'a>>|
                #![trigger steps_trace(ss, r@)]
                steps_trace(ss, r@) && ss[0] == *old(self) && ss[ss.len() - 1] == *final(self),
    {
        let ghost mut states: Seq<NDTM<'a>> = seq![*old(self)];
        let mut vec: Vec<StepResult> = Vec::new();
        let lim: usize = match steps {
            Some(m) => m,
            None => usize::MAX,
        };
        let mut count: usize = 0;
        while count < lim
            invariant
                self.wf(),
                self.budget() == old(self).budget(),
                self.rules_of() == old(self).rules_of(),
                count <= lim,
                lim as int == iter_cap(steps),
                vec@.len() == count,
                self.undecided_flag() == (old(self).undecided_flag() || exists|i: int|
                    0 <= i < vec@.len() && (#[trigger] vec@[i]) matches StepResult::Undecided {
                        ..
                    }),
                forall|i: int|
                    0 <= i < vec@.len() ==> !((#[trigger] vec@[i]) matches
                        StepResult::Success { .. }) && !(vec@[i] matches StepResult::FailAll),
                old(self).rules_of().fin_set().is_empty() ==> forall|i: int|
                    0 <= i < vec@.len() ==> !((#[trigger] vec@[i]) matches
                        StepResult::Success { .. }),
                states.len() == vec@.len() + 1,
                states[0] == *old(self),
                states[states.len() - 1] == *self,
                forall|i: int|
                    0 <= i < vec@.len() ==> step_rel(#[trigger] states[i], states[i + 1], vec@[i]),
            decreases lim - count,
        {
            let r = self.step();
            count = count + 1;
            let stop = match &r {
                StepResult::Success { .. } => true,
                StepResult::FailAll => true,
                _ => false,
            };
            let ghost rr = r;
            let ghost vec0 = vec@;
            let ghost states0 = states;
            vec.push(r);
            proof {
                states = states.push(*self);
                assert(states.len() == vec@.len() + 1);
                assert(states[states.len() - 1] == *self);
                assert forall|i: int|
                    0 <= i < vec@.len() implies step_rel(
                    #[trigger] states[i],
                    states[i + 1],
                    vec@[i],
                ) by {
                    if i < vec0.len() {
                        assert(states[i] == states0[i]);
                        assert(states[i + 1] == states0[i + 1]);
                        assert(vec@[i] == vec0[i]);
                    } else {
                        assert(states[i] == states0[states0.len() - 1]);
                        assert(states[i + 1] == *self);
                        assert(vec@[i] == rr);
                    }
                }
                assert(vec@.last() == rr);
                assert((exists|i: int|
                    0 <= i < vec@.len() && (#[trigger] vec@[i]) matches StepResult::Undecided {
                        ..
                    }) == ((exists|i: int|
                    0 <= i < vec0.len() && (#[trigger] vec0[i]) matches StepResult::Undecided {
                        ..
                    }) || rr matches StepResult::Undecided { .. })) by {
                    if exists|i: int|
                        0 <= i < vec0.len() && (#[trigger] vec0[i]) matches
                            StepResult::Undecided { .. } {
                        let i = choose|i: int|
                            0 <= i < vec0.len() && (#[trigger] vec0[i]) matches
                                StepResult::Undecided { .. };
                        assert(vec@[i] == vec0[i]);
                    }
                    if rr matches StepResult::Undecided { .. } {
                        assert(vec@[vec0.len() as int] == rr);
                    }
                    if exists|i: int|
                        0 <= i < vec@.len() && (#[trigger] vec@[i]) matches
                            StepResult::Undecided { .. } {
                        let i = choose|i: int|
                            0 <= i < vec@.len() && (#[trigger] vec@[i]) matches
                                StepResult::Undecided { .. };
                        if i < vec0.len() {
                            assert(vec0[i] == vec@[i]);
                        } else {
                            assert(vec@[i] == rr);
                        }
                    }
                }
            }
            if stop {
                proof {
                    assert(steps_trace(states, vec@));
                }
                return vec;
            }
        }
        proof {
            assert(steps_trace(states, vec@));
        }
        vec
    }

    /// Every live branch respects the step budget; one that reaches it is
    /// only ever reported `Undecided` and dropped, never explored further.
    pub proof fn lemma_depth_bounded(self, i: int)
        requires
            self.wf(),
            0 <= i < self.queue().len(),
        ensures
            self.queue()[i].depth <= self.budget(),
    {
    }
}

/// The decision a finished run stands for: acceptance if a branch
/// recognized the input; otherwise rejection, unless some branch was cut
/// off by the budget, which leaves the machine undecided.
pub fn conclude(last: &StepResult, some_undecided: bool) -> (v: Verdict)
    requires
        (last matches StepResult::Success { .. }) || (last matches StepResult::FailAll),
    ensures
        last matches StepResult::Success { .. } ==> v == Verdict::Success,
        last matches StepResult::FailAll ==> v == (if some_undecided {
            Verdict::Undecided
        } else {
            Verdict::Failure
        }),
{
    match last {
        StepResult::Success { .. } => Verdict::Success,
        StepResult::FailAll => {
            if some_undecided {
                Verdict::Undecided
            } else {
                Verdict::Failure
            }
        }
        _ => vstd::pervasive::unreached(),
    }
}

/// Decide one input: build a tape over it, seed a scheduler on the rules
/// with the budget, run to completion, and conclude. The verdict is
/// exactly what a `step_rel`-linked run from the seeded scheduler over
/// the input's tape concludes; a rule file with no finals can never end
/// in acceptance.
pub fn decide<'a>(
    rules: &'a RuleStore,
    width: usize,
    blank: u8,
    input: &[u8],
    budget: usize,
) -> (v: Verdict)
    requires
        rules.wf(),
        width >= 1,
        input@.len() + width <= usize::MAX,
    ensures
        rules.fin_set().is_empty() ==> v != Verdict::Success,
        exists|tv: crate::tape::TapeModel, ss: Seq<NDTM<'a>>, rs: Seq<StepResult>|
            #![trigger steps_trace(ss, rs), crate::tape::initial_model(tv, width, blank, input@)]
            {
                &&& crate::tape::initial_model(tv, width, blank, input@)
                &&& seeded(ss[0], *rules, budget, tv)
                &&& steps_trace(ss, rs)
                &&& (forall|i: int|
                    0 <= i < rs.len() - 1 ==> !((#[trigger] rs[i]) matches
                        StepResult::Success { .. }) && !(rs[i] matches StepResult::FailAll))
                &&& (rs.len() < usize::MAX ==> rs.len() > 0 && ((rs[rs.len() - 1] matches
                    StepResult::Success { .. }) || rs[rs.len() - 1] matches
                    StepResult::FailAll))
                &&& v == (if rs.len() > 0 && (rs[rs.len() - 1] matches StepResult::Success {
                    ..
                }) {
                    Verdict::Success
                } else if rs.len() > 0 && (rs[rs.len() - 1] matches StepResult::FailAll) {
                    if ss[ss.len() - 1].undecided_flag() {
                        Verdict::Undecided
                    } else {
                        Verdict::Failure
                    }
                } else {
                    Verdict::Undecided
                })
            },
{
    let tape = Tape::create(width, blank, input);
    let ghost tv = tape@;
    let mut machine = NDTM::new(tape, rules, budget);
    let ghost m0 = machine;
    let res = machine.fastforward(None);
    let n = res.len();
    let v = if n > 0 {
        let x = &res[n - 1];
        match x {
            StepResult::Success { .. } => conclude(x, machine.some_undecided),
            StepResult::FailAll => conclude(x, machine.some_undecided),
            _ => {
                // The iteration cap of the address space was reached
                // before the frontier settled; nothing was decided.
                Verdict::Undecided
            }
        }
    } else {
        // No scheduler iterations were served at all.
        Verdict::Undecided
    };
    proof {
        let ss = choose|ss: Seq<NDTM<'a>>|
            #![trigger steps_trace(ss, res@)]
            steps_trace(ss, res@) && ss[0] == m0 && ss[ss.len() - 1] == machine;
        assert(seeded(ss[0], *rules, budget, tv));
        assert(machine.undecided_flag() == machine.some_undecided);
        assert(steps_trace(ss, res@) && {
            &&& crate::tape::initial_model(tv, width, blank, input@)
            &&& seeded(ss[0], *rules, budget, tv)
            &&& (forall|i: int|
                0 <= i < res@.len() - 1 ==> !((#[trigger] res@[i]) matches
                    StepResult::Success { .. }) && !(res@[i] matches StepResult::FailAll))
            &&& (res@.len() < usize::MAX ==> res@.len() > 0 && ((res@[res@.len() - 1] matches
                StepResult::Success { .. }) || res@[res@.len() - 1] matches
                StepResult::FailAll))
            &&& v == (if res@.len() > 0 && (res@[res@.len() - 1] matches StepResult::Success {
                ..
            }) {
                Verdict::Success
            } else if res@.len() > 0 && (res@[res@.len() - 1] matches StepResult::FailAll) {
                if ss[ss.len() - 1].undecided_flag() {
                    Verdict::Undecided
                } else {
                    Verdict::Failure
                }
            } else {
                Verdict::Undecided
            })
        });
    }
    v
}

/// Saturating addition.
fn sat_add(x: usize, y: usize) -> (r: usize)
    ensures
        r as int == (if x + y > usize::MAX {
            usize::MAX as int
        } else {
            x + y
        }),
{
    if x > usize::MAX - y {
        usize::MAX
    } else {
        x + y
    }
}

} // verus!
