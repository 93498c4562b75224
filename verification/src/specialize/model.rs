//! What specialisation computes, as mathematics: instances, the plans of
//! their branches, and how states are built from them one by one.

use crate::concrete::{closed, BranchView, Call, Primitive};
use crate::error::{collect, ErrorKey};
use crate::resolved::{args_id, ArgKey, PartKey, ResolvedPrimitive};
use crate::skeleton::{Branch, StateDef};
use vstd::prelude::*;

verus! {

/// The model of an instance: the name of the template and the models of
/// the arguments.
pub struct InstanceKey {
    pub name: Seq<char>,
    pub args: Seq<ArgKey>,
}

/// Nothing tells the two instances apart: they have the same name, and
/// arguments that are the same symbols, selectors that admit the same
/// symbols, and the same chains, position for position. Two instances that
/// are alike share one state.
pub open spec fn alike(a: InstanceKey, b: InstanceKey) -> bool {
    a.name == b.name && args_id(a.args) == args_id(b.args)
}

/// No two instances of the list are alike.
pub open spec fn distinct(keys: Seq<InstanceKey>) -> bool {
    forall|i: int, j: int|
        0 <= i < keys.len() && 0 <= j < keys.len() && i != j ==> !alike(keys[i], keys[j])
}

/// How a branch ends.
pub enum Continuation {
    Accept,
    Reject,
    /// The chain holds primitives only: the machine stays in the state.
    Stay,
    Goto(InstanceKey),
}

/// A branch resolved in its environment, before its continuation has a
/// state index.
pub struct Plan {
    pub symbols: Set<u8>,
    pub primitives: Seq<Primitive>,
    pub next: Continuation,
}

/// The action of the flat machine for a resolved primitive.
pub open spec fn as_action(prim: ResolvedPrimitive) -> Primitive {
    match prim {
        ResolvedPrimitive::Movel => Primitive::Movel,
        ResolvedPrimitive::Mover => Primitive::Mover,
        ResolvedPrimitive::Print(sym) => Primitive::Print(sym),
    }
}

/// The index of the first element at or after `from` that is no primitive.
pub open spec fn lead(parts: Seq<PartKey>, from: int) -> int
    decreases parts.len() - from,
{
    if 0 <= from < parts.len() && parts[from] is Prim {
        lead(parts, from + 1)
    } else {
        from
    }
}

/// The primitives that a chain starts with.
pub open spec fn actions(parts: Seq<PartKey>) -> Seq<Primitive> {
    Seq::new(lead(parts, 0) as nat, |k: int| as_action(parts[k]->Prim_0))
}

/// How a chain ends, read off the first element that is no primitive.
pub open spec fn continuation(parts: Seq<PartKey>) -> Continuation {
    let n = lead(parts, 0);
    if n >= parts.len() {
        Continuation::Stay
    } else {
        match parts[n] {
            PartKey::Accept => Continuation::Accept,
            PartKey::Reject => Continuation::Reject,
            PartKey::Call { id, args } => Continuation::Goto(
                InstanceKey {
                    name: id,
                    args: if n + 1 == parts.len() {
                        args
                    } else {
                        args.push(ArgKey::Chain(parts.subrange(n + 1, parts.len() as int)))
                    },
                },
            ),
            PartKey::Prim(_) => Continuation::Stay,
        }
    }
}

/// The first `n` parameters bound to the arguments at their positions; of
/// two parameters with one name the later one counts.
pub open spec fn bound_first(params: Seq<String>, args: Seq<ArgKey>, n: int) -> Map<
    Seq<char>,
    ArgKey,
>
    decreases n,
{
    if n <= 0 {
        Map::empty()
    } else {
        bound_first(params, args, n - 1).insert(params[n - 1]@, args[n - 1])
    }
}

/// The environment of an instance: each parameter bound to the argument at
/// its position.
pub open spec fn scope(params: Seq<String>, args: Seq<ArgKey>) -> Map<Seq<char>, ArgKey> {
    bound_first(
        params,
        args,
        if params.len() <= args.len() {
            params.len() as int
        } else {
            args.len() as int
        },
    )
}

/// What an instance goes on with where a branch of its template ends: the
/// chain that it was given as one argument more than the template has
/// parameters, or nothing if it was given as many arguments as there are
/// parameters. `None` if the arguments fit in neither way.
pub open spec fn surplus(params: nat, args: Seq<ArgKey>) -> Option<Seq<PartKey>> {
    if args.len() == params {
        Some(Seq::empty())
    } else if args.len() == params + 1 && args.last() is Chain {
        Some(args.last()->Chain_0)
    } else {
        None
    }
}

/// The plan of one branch in `env`: its selector resolved, and its chain
/// resolved and followed by `rest`; or the first fault, that of the
/// selector first.
pub open spec fn branch_plan(branch: Branch, env: Map<Seq<char>, ArgKey>, rest: Seq<PartKey>) -> Result<
    Plan,
    ErrorKey,
> {
    match branch.sel.resolved(env) {
        Err(e) => Err(e),
        Ok(symbols) => match branch.chain.resolved(env) {
            Err(e) => Err(e),
            Ok(parts) => Ok(
                Plan {
                    symbols,
                    primitives: actions(parts + rest),
                    next: continuation(parts + rest),
                },
            ),
        },
    }
}

/// How each branch of a list plans.
pub open spec fn branch_plans(
    branches: Seq<Branch>,
    env: Map<Seq<char>, ArgKey>,
    rest: Seq<PartKey>,
) -> Seq<Result<Plan, ErrorKey>> {
    Seq::new(branches.len(), |i: int| branch_plan(branches[i], env, rest))
}

/// The first template at or after `from` with the name `name`.
pub open spec fn find_template(templates: Seq<StateDef>, name: Seq<char>, from: int) -> Option<
    int,
>
    decreases templates.len() - from,
{
    if from < 0 || from >= templates.len() {
        None
    } else if templates[from].name@ == name {
        Some(from)
    } else {
        find_template(templates, name, from + 1)
    }
}

/// The first position at or after `from` at which `keys` holds an instance
/// that is like `key`.
pub open spec fn index_of(keys: Seq<InstanceKey>, key: InstanceKey, from: int) -> Option<int>
    decreases keys.len() - from,
{
    if from < 0 || from >= keys.len() {
        None
    } else if alike(keys[from], key) {
        Some(from)
    } else {
        index_of(keys, key, from + 1)
    }
}

/// The index of `key` among the instances known so far. Where an instance
/// like it is already known, that one's index is the answer and nothing
/// changes; a new one must name a template, fit its
/// parameters and find room under the ceiling, and then gets the next index.
pub open spec fn enroll(
    templates: Seq<StateDef>,
    keys: Seq<InstanceKey>,
    key: InstanceKey,
    limit: int,
) -> Result<(Seq<InstanceKey>, int), ErrorKey> {
    match index_of(keys, key, 0) {
        Some(i) => Ok((keys, i)),
        None => match find_template(templates, key.name, 0) {
            None => Err(ErrorKey::UnknownState(key.name)),
            Some(t) => if surplus(templates[t].params@.len(), key.args) is None {
                Err(ErrorKey::ArityMismatch(key.name))
            } else if keys.len() >= limit {
                Err(ErrorKey::SpecializationExplosion)
            } else {
                Ok((keys.push(key), keys.len() as int))
            },
        },
    }
}

/// Gives each plan's continuation a state index, in branch order; `me` is
/// the index of the state that the plans belong to.
pub open spec fn link(
    templates: Seq<StateDef>,
    plans: Seq<Plan>,
    keys: Seq<InstanceKey>,
    me: int,
    limit: int,
) -> Result<(Seq<BranchView>, Seq<InstanceKey>), ErrorKey>
    decreases plans.len(),
{
    if plans.len() == 0 {
        Ok((Seq::empty(), keys))
    } else {
        match link(templates, plans.drop_last(), keys, me, limit) {
            Err(e) => Err(e),
            Ok((branches, known)) => {
                let plan = plans.last();
                match plan.next {
                    Continuation::Accept => Ok(
                        (
                            branches.push(
                                BranchView {
                                    symbols: plan.symbols,
                                    primitives: plan.primitives,
                                    call: Call::Accept,
                                },
                            ),
                            known,
                        ),
                    ),
                    Continuation::Reject => Ok(
                        (
                            branches.push(
                                BranchView {
                                    symbols: plan.symbols,
                                    primitives: plan.primitives,
                                    call: Call::Reject,
                                },
                            ),
                            known,
                        ),
                    ),
                    Continuation::Stay => Ok(
                        (
                            branches.push(
                                BranchView {
                                    symbols: plan.symbols,
                                    primitives: plan.primitives,
                                    call: Call::State(me as usize),
                                },
                            ),
                            known,
                        ),
                    ),
                    Continuation::Goto(key) => match enroll(templates, known, key, limit) {
                        Err(e) => Err(e),
                        Ok((grown, target)) => Ok(
                            (
                                branches.push(
                                    BranchView {
                                        symbols: plan.symbols,
                                        primitives: plan.primitives,
                                        call: Call::State(target as usize),
                                    },
                                ),
                                grown,
                            ),
                        ),
                    },
                }
            },
        }
    }
}

/// The plans of the branches of an instance, in branch order: the branches of
/// the first template of its name, resolved with its arguments bound, each
/// followed by what the instance goes on with.
pub open spec fn plans_for(templates: Seq<StateDef>, key: InstanceKey) -> Result<
    Seq<Plan>,
    ErrorKey,
> {
    match find_template(templates, key.name, 0) {
        None => Err(ErrorKey::UnknownState(key.name)),
        Some(t) => collect(
            branch_plans(
                templates[t].branches@,
                scope(templates[t].params@, key.args),
                match surplus(templates[t].params@.len(), key.args) {
                    Some(rest) => rest,
                    None => Seq::empty(),
                },
            ),
        ),
    }
}

/// The state of the instance at index `me`, and the instances known once it
/// is built.
pub open spec fn build(templates: Seq<StateDef>, keys: Seq<InstanceKey>, me: int, limit: int) -> Result<
    (Seq<BranchView>, Seq<InstanceKey>),
    ErrorKey,
> {
    match plans_for(templates, keys[me]) {
        Err(e) => Err(e),
        Ok(plans) => link(templates, plans, keys, me, limit),
    }
}

/// Builds the states that are still missing, in index order, until every
/// known instance has its state.
pub open spec fn grow(
    templates: Seq<StateDef>,
    keys: Seq<InstanceKey>,
    states: Seq<Seq<BranchView>>,
    limit: int,
) -> Result<(Seq<InstanceKey>, Seq<Seq<BranchView>>), ErrorKey>
    decreases limit - states.len(),
{
    if states.len() >= keys.len() || states.len() >= limit {
        Ok((keys, states))
    } else {
        match build(templates, keys, states.len() as int, limit) {
            Err(e) => Err(e),
            Ok((branches, known)) => grow(templates, known, states.push(branches), limit),
        }
    }
}

/// Every continuation of `branches` names a state below `bound`.
pub open spec fn calls_below(branches: Seq<BranchView>, bound: int) -> bool {
    forall|j: int|
        0 <= j < branches.len() ==> match (#[trigger] branches[j]).call {
            Call::State(k) => k < bound,
            _ => true,
        }
}

/// What a specialiser has done so far: the instances it knows, by index,
/// and the states it has built for them.
pub struct Progress {
    pub keys: Seq<InstanceKey>,
    pub states: Seq<Seq<BranchView>>,
}

/// Nothing known, nothing built.
pub open spec fn nothing() -> Progress {
    Progress { keys: Seq::empty(), states: Seq::empty() }
}

/// Between two requests every known instance has its state, no two known
/// instances are alike, the ceiling is kept, and every continuation names a state
/// that exists.
pub open spec fn settled(progress: Progress, limit: int) -> bool {
    &&& progress.keys.len() <= limit
    &&& distinct(progress.keys)
    &&& progress.states.len() == progress.keys.len()
    &&& closed(progress.states)
}

/// The effect of asking for the state of `key`: the progress afterwards and
/// the index of that state, or the progress as it was and the first fault.
pub open spec fn specialized(
    templates: Seq<StateDef>,
    limit: int,
    before: Progress,
    key: InstanceKey,
) -> (Progress, Result<int, ErrorKey>) {
    match enroll(templates, before.keys, key, limit) {
        Err(e) => (before, Err(e)),
        Ok((known, index)) => match grow(templates, known, before.states, limit) {
            Err(e) => (before, Err(e)),
            Ok((keys, states)) => (Progress { keys, states }, Ok(index)),
        },
    }
}

/// Every instance that an instance of `reach` calls is in `reach` too.
pub open spec fn calls_stay_within(templates: Seq<StateDef>, reach: Set<InstanceKey>) -> bool {
    forall|key: InstanceKey, j: int|
        #![trigger reach.contains(key), plans_for(templates, key)->Ok_0[j]]
        reach.contains(key) && plans_for(templates, key) is Ok && 0 <= j < plans_for(
            templates,
            key,
        )->Ok_0.len() && plans_for(templates, key)->Ok_0[j].next is Goto ==> reach.contains(
            plans_for(templates, key)->Ok_0[j].next->Goto_0,
        )
}

/// The instance names a template, and its arguments fit the template's
/// parameters.
pub open spec fn fits_a_template(templates: Seq<StateDef>, key: InstanceKey) -> bool {
    match find_template(templates, key.name, 0) {
        Some(t) => surplus(templates[t].params@.len(), key.args) is Some,
        None => false,
    }
}

/// Every instance of `reach` fits a template whose branches resolve with
/// its arguments.
pub open spec fn all_resolve(templates: Seq<StateDef>, reach: Set<InstanceKey>) -> bool {
    forall|key: InstanceKey| #[trigger]
        reach.contains(key) ==> fits_a_template(templates, key) && plans_for(templates, key) is Ok
}

/// `reach` is finite and holds at most `limit` instances.
pub open spec fn fits_under(reach: Set<InstanceKey>, limit: int) -> bool {
    reach.finite() && reach.len() <= limit
}

/// Every instance that an instance of the list calls has its like in the
/// list.
pub open spec fn self_contained(templates: Seq<StateDef>, keys: Seq<InstanceKey>) -> bool {
    forall|i: int, j: int|
        #![trigger plans_for(templates, keys[i])->Ok_0[j]]
        0 <= i < keys.len() && plans_for(templates, keys[i]) is Ok && 0 <= j < plans_for(
            templates,
            keys[i],
        )->Ok_0.len() && plans_for(templates, keys[i])->Ok_0[j].next is Goto ==> index_of(
            keys,
            plans_for(templates, keys[i])->Ok_0[j].next->Goto_0,
            0,
        ) is Some
}

/// Every key of the list is in `reach`.
pub open spec fn all_within(keys: Seq<InstanceKey>, reach: Set<InstanceKey>) -> bool {
    forall|i: int| 0 <= i < keys.len() ==> reach.contains(#[trigger] keys[i])
}

/// The branch that a plan stands for in state `me`, once the instance it
/// calls is known: the same symbols and primitives, and the continuation
/// with the index of that instance in place of the instance.
pub open spec fn linked_branch(plan: Plan, keys: Seq<InstanceKey>, me: int) -> Option<BranchView> {
    match plan.next {
        Continuation::Accept => Some(
            BranchView { symbols: plan.symbols, primitives: plan.primitives, call: Call::Accept },
        ),
        Continuation::Reject => Some(
            BranchView { symbols: plan.symbols, primitives: plan.primitives, call: Call::Reject },
        ),
        Continuation::Stay => Some(
            BranchView {
                symbols: plan.symbols,
                primitives: plan.primitives,
                call: Call::State(me as usize),
            },
        ),
        Continuation::Goto(key) => match index_of(keys, key, 0) {
            Some(k) => Some(
                BranchView {
                    symbols: plan.symbols,
                    primitives: plan.primitives,
                    call: Call::State(k as usize),
                },
            ),
            None => None,
        },
    }
}

/// `state` is what the template of the instance at index `me` says, branch
/// for branch, with `keys` as the instances known.
pub open spec fn state_matches(
    templates: Seq<StateDef>,
    keys: Seq<InstanceKey>,
    me: int,
    state: Seq<BranchView>,
) -> bool {
    &&& plans_for(templates, keys[me]) is Ok
    &&& state.len() == plans_for(templates, keys[me])->Ok_0.len()
    &&& forall|j: int|
        0 <= j < state.len() ==> linked_branch(
            plans_for(templates, keys[me])->Ok_0[j],
            keys,
            me,
        ) == Some(#[trigger] state[j])
}

/// Every state built so far is what the template of its instance says.
pub open spec fn faithful(templates: Seq<StateDef>, progress: Progress) -> bool {
    forall|i: int|
        0 <= i < progress.states.len() ==> state_matches(
            templates,
            progress.keys,
            i,
            #[trigger] progress.states[i],
        )
}

} // verus!
