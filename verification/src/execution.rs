//! The engine that runs a machine over a tape, one step at a time.

use crate::concrete::{closed, BranchView, Call, Machine, Primitive};
use crate::tape::{symbol_at, Tape};
use vstd::prelude::*;

verus! {

/// Why a run stopped without accepting or rejecting.
#[derive(Debug, Clone, Copy, PartialEq, Eq, Structural)]
pub enum Failure {
    /// No branch of the state admits the symbol under the head.
    NoMatchingBranch { state: usize, symbol: u8 },
    /// The active state is not a state of the machine.
    NoSuchState { state: usize },
    /// A move would take the head past the positions that can be counted.
    HeadOutOfRange,
}

/// Where a run stands.
#[derive(Debug, Clone, Copy, PartialEq, Eq, Structural)]
pub enum Status {
    Running,
    Accepted,
    Rejected,
    Failed(Failure),
}

/// Everything a run consists of at one moment.
pub struct Config {
    pub status: Status,
    pub state: usize,
    pub pos: i32,
    pub tape: Map<i32, u8>,
}

/// The first branch at or after `from` that admits `sym`.
pub open spec fn first_match(branches: Seq<BranchView>, sym: u8, from: int) -> Option<int>
    decreases branches.len() - from,
{
    if from < 0 || from >= branches.len() {
        None
    } else if branches[from].symbols.contains(sym) {
        Some(from)
    } else {
        first_match(branches, sym, from + 1)
    }
}

/// Where the head is and what the tape holds while a branch's primitives
/// run; `ok` turns false at a move that cannot be made.
pub struct Reach {
    pub pos: i32,
    pub tape: Map<i32, u8>,
    pub ok: bool,
}

/// The effect of one primitive. After a move that cannot be made nothing
/// changes any more.
pub open spec fn act(prim: Primitive, at: Reach) -> Reach {
    if !at.ok {
        at
    } else {
        match prim {
            Primitive::Movel => if at.pos > i32::MIN {
                Reach { pos: (at.pos - 1) as i32, tape: at.tape, ok: true }
            } else {
                Reach { pos: at.pos, tape: at.tape, ok: false }
            },
            Primitive::Mover => if at.pos < i32::MAX {
                Reach { pos: (at.pos + 1) as i32, tape: at.tape, ok: true }
            } else {
                Reach { pos: at.pos, tape: at.tape, ok: false }
            },
            Primitive::Print(sym) => Reach {
                pos: at.pos,
                tape: at.tape.insert(at.pos, sym),
                ok: true,
            },
        }
    }
}

/// The effect of a sequence of primitives, applied in the order listed.
pub open spec fn perform(prims: Seq<Primitive>, start: Reach) -> Reach
    decreases prims.len(),
{
    if prims.len() == 0 {
        start
    } else {
        act(prims.last(), perform(prims.drop_last(), start))
    }
}

/// One step: read, pick the first branch that matches, apply its primitives,
/// then its continuation. A configuration that is not running stays as it is.
pub open spec fn after_step(machine: Seq<Seq<BranchView>>, c: Config) -> Config {
    if c.status != Status::Running {
        c
    } else if c.state >= machine.len() {
        Config {
            status: Status::Failed(Failure::NoSuchState { state: c.state }),
            state: c.state,
            pos: c.pos,
            tape: c.tape,
        }
    } else {
        let sym = symbol_at(c.tape, c.pos);
        match first_match(machine[c.state as int], sym, 0) {
            None => Config {
                status: Status::Failed(Failure::NoMatchingBranch { state: c.state, symbol: sym }),
                state: c.state,
                pos: c.pos,
                tape: c.tape,
            },
            Some(j) => {
                let branch = machine[c.state as int][j];
                let end = perform(branch.primitives, Reach { pos: c.pos, tape: c.tape, ok: true });
                if !end.ok {
                    Config {
                        status: Status::Failed(Failure::HeadOutOfRange),
                        state: c.state,
                        pos: end.pos,
                        tape: end.tape,
                    }
                } else {
                    match branch.call {
                        Call::Accept => Config {
                            status: Status::Accepted,
                            state: c.state,
                            pos: end.pos,
                            tape: end.tape,
                        },
                        Call::Reject => Config {
                            status: Status::Rejected,
                            state: c.state,
                            pos: end.pos,
                            tape: end.tape,
                        },
                        Call::State(next) => Config {
                            status: Status::Running,
                            state: next,
                            pos: end.pos,
                            tape: end.tape,
                        },
                    }
                }
            },
        }
    }
}

/// Up to `budget` steps, stopping early once the run is no longer running.
pub open spec fn after_steps(machine: Seq<Seq<BranchView>>, c: Config, budget: nat) -> Config
    decreases budget,
{
    if budget == 0 || c.status != Status::Running {
        c
    } else {
        after_steps(machine, after_step(machine, c), (budget - 1) as nat)
    }
}

/// The configuration in which every run starts.
pub open spec fn initial(entry: usize, tape: Map<i32, u8>) -> Config {
    Config { status: Status::Running, state: entry, pos: 0, tape }
}

/// Two runs of one machine from one configuration, with one budget, end in
/// the same status, tape and head position.
pub proof fn lemma_run_is_deterministic(
    machine: Seq<Seq<BranchView>>,
    start: Config,
    budget: nat,
    first: Config,
    second: Config,
)
    requires
        first == after_steps(machine, start, budget),
        second == after_steps(machine, start, budget),
    ensures
        first.status == second.status,
        first.tape == second.tape,
        first.pos == second.pos,
{
}

/// A run that has stopped stays where it is, whatever budget is left.
pub proof fn lemma_stopped_stays(machine: Seq<Seq<BranchView>>, c: Config, budget: nat)
    requires
        c.status != Status::Running,
    ensures
        after_steps(machine, c, budget) == c,
        after_step(machine, c) == c,
{
}

/// A budget can be spent in two parts.
pub proof fn lemma_steps_compose(machine: Seq<Seq<BranchView>>, c: Config, a: nat, b: nat)
    ensures
        after_steps(machine, c, a + b) == after_steps(machine, after_steps(machine, c, a), b),
    decreases a,
{
    if a == 0 {
    } else if c.status != Status::Running {
        lemma_stopped_stays(machine, c, b);
    } else {
        lemma_steps_compose(machine, after_step(machine, c), (a - 1) as nat, b);
        assert((a + b - 1) as nat == (a - 1) as nat + b);
    }
}

/// Where every move of the chosen branch can be made, a step leaves the head
/// and the tape as the branch's primitives leave them and ends as its
/// continuation says.
pub proof fn lemma_step_follows_the_branch(machine: Seq<Seq<BranchView>>, c: Config, j: int)
    requires
        c.status == Status::Running,
        c.state < machine.len(),
        first_match(machine[c.state as int], symbol_at(c.tape, c.pos), 0) == Some(j),
        perform(
            machine[c.state as int][j].primitives,
            Reach { pos: c.pos, tape: c.tape, ok: true },
        ).ok,
    ensures
        ({
            let end = perform(
                machine[c.state as int][j].primitives,
                Reach { pos: c.pos, tape: c.tape, ok: true },
            );
            let next = after_step(machine, c);
            &&& next.pos == end.pos
            &&& next.tape == end.tape
            &&& match machine[c.state as int][j].call {
                Call::Accept => next.status == Status::Accepted && next.state == c.state,
                Call::Reject => next.status == Status::Rejected && next.state == c.state,
                Call::State(k) => next.status == Status::Running && next.state == k,
            }
        }),
{
}

/// Whether the active state, while the run is running, is a state of the
/// machine.
pub open spec fn inside(machine: Seq<Seq<BranchView>>, c: Config) -> bool {
    c.status != Status::Running || c.state < machine.len()
}

/// Whether a run has failed for want of the active state.
pub open spec fn lost(c: Config) -> bool {
    c.status is Failed && c.status->Failed_0 is NoSuchState
}

/// Where `first_match` finds a branch, the branch is one of the state's.
pub proof fn lemma_first_match_in_range(branches: Seq<BranchView>, sym: u8, from: int)
    requires
        0 <= from,
    ensures
        match first_match(branches, sym, from) {
            Some(j) => from <= j < branches.len() && branches[j].symbols.contains(sym)
                && forall|k: int| from <= k < j ==> !branches[k].symbols.contains(sym),
            None => forall|k: int| from <= k < branches.len() ==> !branches[k].symbols.contains(sym),
        },
    decreases branches.len() - from,
{
    if from < branches.len() && !branches[from].symbols.contains(sym) {
        lemma_first_match_in_range(branches, sym, from + 1);
    }
}

/// A closed machine that is started in one of its states never fails for
/// want of a state, however long it runs.
pub proof fn lemma_closed_machine_stays_inside(
    machine: Seq<Seq<BranchView>>,
    start: Config,
    budget: nat,
)
    requires
        closed(machine),
        inside(machine, start),
        !lost(start),
    ensures
        inside(machine, after_steps(machine, start, budget)),
        !lost(after_steps(machine, start, budget)),
    decreases budget,
{
    if budget > 0 && start.status == Status::Running {
        let sym = symbol_at(start.tape, start.pos);
        lemma_first_match_in_range(machine[start.state as int], sym, 0);
        match first_match(machine[start.state as int], sym, 0) {
            Some(j) => {
                let call = machine[start.state as int][j].call;
            },
            None => {},
        }
        lemma_closed_machine_stays_inside(
            machine,
            after_step(machine, start),
            (budget - 1) as nat,
        );
    }
}

/// A machine at work on a tape.
#[derive(Debug)]
pub struct Execution<'a> {
    pub machine: &'a Machine,
    pub state_idx: usize,
    pub pos: i32,
    pub tape: Tape,
    pub status: Status,
}

impl<'a> View for Execution<'a> {
    type V = Config;

    open spec fn view(&self) -> Config {
        Config { status: self.status, state: self.state_idx, pos: self.pos, tape: self.tape@ }
    }
}

impl<'a> Execution<'a> {
    /// A run about to start in state `entry`, with the head at position 0.
    pub fn new(machine: &'a Machine, entry: usize, tape: Tape) -> (run: Self)
        ensures
            run.machine == machine,
            run@ == initial(entry, tape@),
    {
        Execution { machine, state_idx: entry, pos: 0, tape, status: Status::Running }
    }

    /// Takes one step and reports the status reached.
    pub fn step(&mut self) -> (status: Status)
        ensures
            final(self).machine == old(self).machine,
            final(self)@ == after_step(old(self).machine@, old(self)@),
            status == final(self).status,
    {
        if self.status != Status::Running {
            return self.status;
        }
        if self.state_idx >= self.machine.states.len() {
            self.status = Status::Failed(Failure::NoSuchState { state: self.state_idx });
            return self.status;
        }
        let scan = self.tape.get(self.pos);
        let state = &self.machine.states[self.state_idx];
        let ghost branches = self.machine@[self.state_idx as int];
        assert(branches == state@);
        let mut chosen: usize = 0;
        let mut found = false;
        while chosen < state.branches.len() && !found
            invariant
                chosen <= state.branches.len(),
                branches == state@,
                first_match(branches, scan, 0) == first_match(branches, scan, chosen as int),
                found ==> chosen < state.branches.len() && branches[chosen as int].symbols.contains(
                    scan,
                ),
            decreases state.branches.len() - chosen + (if found { 0int } else { 1int }),
        {
            if state.branches[chosen].sel.matches(scan) {
                found = true;
            } else {
                chosen += 1;
            }
        }
        if !found {
            self.status = Status::Failed(
                Failure::NoMatchingBranch { state: self.state_idx, symbol: scan },
            );
            return self.status;
        }
        let branch = &state.branches[chosen];
        assert(branches[chosen as int] == branch@);
        let ghost start = Reach { pos: self.pos, tape: self.tape@, ok: true };
        let ghost end = perform(branch.primitives@, start);
        let ghost goal = after_step(old(self).machine@, old(self)@);
        assert(!end.ok ==> goal == (Config {
            status: Status::Failed(Failure::HeadOutOfRange),
            state: self.state_idx,
            pos: end.pos,
            tape: end.tape,
        }));
        let mut i: usize = 0;
        assert(branch.primitives@.take(0) =~= Seq::<Primitive>::empty());
        while i < branch.primitives.len()
            invariant
                i <= branch.primitives.len(),
                self.machine == old(self).machine,
                self.state_idx == old(self).state_idx,
                self.status == Status::Running,
                end == perform(branch.primitives@, start),
                !end.ok ==> goal == (Config {
                    status: Status::Failed(Failure::HeadOutOfRange),
                    state: self.state_idx,
                    pos: end.pos,
                    tape: end.tape,
                }),
                goal == after_step(old(self).machine@, old(self)@),
                perform(branch.primitives@.take(i as int), start) == (Reach {
                    pos: self.pos,
                    tape: self.tape@,
                    ok: true,
                }),
            decreases branch.primitives.len() - i,
        {
            proof {
                assert(branch.primitives@.take(i + 1).drop_last() =~= branch.primitives@.take(
                    i as int,
                ));
                assert(branch.primitives@.take(i + 1).last() == branch.primitives@[i as int]);
            }
            match branch.primitives[i] {
                Primitive::Movel => {
                    if self.pos == i32::MIN {
                        proof {
                            lemma_stuck(branch.primitives@, start, i + 1);
                        }
                        self.status = Status::Failed(Failure::HeadOutOfRange);
                        return self.status;
                    }
                    self.pos -= 1;
                },
                Primitive::Mover => {
                    if self.pos == i32::MAX {
                        proof {
                            lemma_stuck(branch.primitives@, start, i + 1);
                        }
                        self.status = Status::Failed(Failure::HeadOutOfRange);
                        return self.status;
                    }
                    self.pos += 1;
                },
                Primitive::Print(sym) => {
                    self.tape.set(self.pos, sym);
                },
            }
            i += 1;
        }
        assert(branch.primitives@.take(i as int) =~= branch.primitives@);
        match branch.call {
            Call::State(next) => {
                self.state_idx = next;
            },
            Call::Accept => {
                self.status = Status::Accepted;
            },
            Call::Reject => {
                self.status = Status::Rejected;
            },
        }
        self.status
    }

    /// Steps until the run stops or `budget` steps are spent.
    pub fn run(&mut self, budget: u64) -> (status: Status)
        ensures
            final(self).machine == old(self).machine,
            final(self)@ == after_steps(old(self).machine@, old(self)@, budget as nat),
            status == final(self).status,
    {
        let mut left: u64 = budget;
        while left > 0 && self.status == Status::Running
            invariant
                self.machine == old(self).machine,
                after_steps(old(self).machine@, old(self)@, budget as nat) == after_steps(
                    self.machine@,
                    self@,
                    left as nat,
                ),
            decreases left,
        {
            self.step();
            left -= 1;
        }
        self.status
    }
}

/// Once a move cannot be made, the primitives after it change nothing.
proof fn lemma_stuck(prims: Seq<Primitive>, start: Reach, k: int)
    requires
        0 <= k <= prims.len(),
        !perform(prims.take(k), start).ok,
    ensures
        perform(prims, start) == perform(prims.take(k), start),
    decreases prims.len() - k,
{
    if k == prims.len() {
        assert(prims.take(k) =~= prims);
    } else {
        assert(prims.take(k + 1).drop_last() =~= prims.take(k));
        lemma_stuck(prims, start, k + 1);
    }
}

/// How a run ended: the status, and the tape and head as they were left.
#[derive(Debug)]
pub struct Outcome {
    pub status: Status,
    pub tape: Tape,
    pub pos: i32,
}

/// Runs `machine` from state `entry` on `tape`, head at position 0, for at
/// most `budget` steps. The status is still `Running` if the budget ran out
/// first.
pub fn run(machine: &Machine, entry: usize, tape: Tape, budget: u64) -> (out: Outcome)
    ensures
        ({
            let end = after_steps(machine@, initial(entry, tape@), budget as nat);
            out.status == end.status && out.tape@ == end.tape && out.pos == end.pos
        }),
{
    let mut run = Execution::new(machine, entry, tape);
    run.run(budget);
    Outcome { status: run.status, tape: run.tape, pos: run.pos }
}

} // verus!
