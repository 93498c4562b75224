//! Turning templates into a machine: every distinct pair of a template and
//! its resolved arguments becomes one state, built once.
//!
//! Two such pairs are the same, and share one state, when they name the
//! same template and their arguments are like each other: symbols of the
//! same value, selectors that admit the same symbols however they are
//! written, and chains with the same elements. The state is built from the
//! pair that was met first.
//!
//! A chain is read as: leading primitives, then the element that decides how
//! the branch ends. `Accept` and `Reject` end the run, and what follows them
//! is never reached. A call goes to the state of the called template with
//! the call's arguments; whatever follows the call in the chain goes along
//! as one more argument, a chain, just as if it had been written as the
//! call's last argument.
//!
//! The arguments of an instance are bound to the parameters of its template
//! position for position. An instance may have one argument more than its
//! template has parameters if that argument is a chain: the instance then
//! goes on with that chain wherever a branch of the template ends, so each
//! of its branches is the branch of the template followed by the chain.
//! Any other difference in number is an arity mismatch.
//!
//! A branch that holds primitives only, with nothing to go on with, stays
//! in its own state.

pub mod laws;
pub mod model;

use crate::concrete::{
    branches_view, closed, states_view, tidy_states, BranchView, Call, Machine, Primitive,
    Selector, State,
};
use crate::env::Environment;
use crate::error::{collect, lemma_collect_fault, lemma_collect_step, CompileError, ErrorKey};
use crate::resolved::{
    arg_id, args_id, args_key, parts_key, PartKey, ResolvedCallArg, ResolvedChain,
    ResolvedChainElem, ResolvedPrimitive, ResolvedSelector,
};
use crate::skeleton::{Branch, StateDef};
use crate::specialize::laws::{
    lemma_enroll_extends, lemma_grow_settles, lemma_link_fault, lemma_specialize_appends,
    lemma_specialize_is_faithful, lemma_targets_below_more,
};
use crate::specialize::model::{
    actions, alike, as_action, bound_first, branch_plan, branch_plans, build, continuation,
    distinct, enroll, faithful, find_template, grow, index_of, lead, link, nothing, scope, settled,
    specialized, surplus, Continuation, InstanceKey, Plan, Progress,
};
use vstd::prelude::*;
use vstd::std_specs::cmp::PartialEqSpecImpl;

verus! {

/// A template together with the arguments it is instantiated with.
#[derive(Debug)]
pub struct Instance {
    pub name: String,
    pub args: Vec<ResolvedCallArg>,
}

impl View for Instance {
    type V = InstanceKey;

    open spec fn view(&self) -> InstanceKey {
        InstanceKey { name: self.name@, args: args_key(self.args@) }
    }
}

impl Clone for Instance {
    fn clone(&self) -> (copy: Self)
        ensures
            copy@ == self@,
    {
        let mut args: Vec<ResolvedCallArg> = Vec::new();
        let mut i: usize = 0;
        while i < self.args.len()
            invariant
                i <= self.args.len(),
                args@.len() == i,
                forall|k: int| 0 <= k < i ==> (#[trigger] args@[k])@ == self.args@[k]@,
            decreases self.args.len() - i,
        {
            args.push(self.args[i].clone());
            i += 1;
        }
        assert(args_key(args@) =~= args_key(self.args@));
        Instance { name: self.name.clone(), args }
    }
}

impl PartialEq for Instance {
    fn eq(&self, other: &Self) -> (same: bool) {
        if !self.name.eq(&other.name) || self.args.len() != other.args.len() {
            assert(args_id(self@.args).len() == self.args@.len());
            assert(args_id(other@.args).len() == other.args@.len());
            return false;
        }
        let mut i: usize = 0;
        while i < self.args.len()
            invariant
                i <= self.args.len(),
                self.args.len() == other.args.len(),
                forall|k: int|
                    0 <= k < i ==> arg_id((#[trigger] self.args@[k])@) == arg_id(other.args@[k]@),
            decreases self.args.len() - i,
        {
            if !self.args[i].eq(&other.args[i]) {
                assert(args_id(self@.args)[i as int] == arg_id(self.args@[i as int]@));
                assert(args_id(other@.args)[i as int] == arg_id(other.args@[i as int]@));
                return false;
            }
            i += 1;
        }
        assert(args_id(self@.args) =~= args_id(other@.args)) by {
            assert forall|k: int| 0 <= k < self.args@.len() implies args_id(self@.args)[k]
                == args_id(other@.args)[k] by {
                assert(arg_id(self.args@[k]@) == arg_id(other.args@[k]@));
            }
        }
        true
    }
}

impl PartialEqSpecImpl for Instance {
    open spec fn obeys_eq_spec() -> bool {
        true
    }

    /// Two instances are equal when they are alike.
    open spec fn eq_spec(&self, other: &Self) -> bool {
        alike(self@, other@)
    }
}

impl Eq for Instance {

}

/// The keys of a list of instances, one for one.
pub open spec fn keys_of(instances: Seq<Instance>) -> Seq<InstanceKey> {
    Seq::new(instances.len(), |i: int| instances[i]@)
}

/// The selector of the flat machine that admits what `sel` admits: `All`
/// if that is every symbol, else the admitted symbols in rising order.
pub fn materialize(sel: &ResolvedSelector) -> (out: Selector)
    ensures
        out@ == sel@,
        out.tidy(),
{
    let mut chars: Vec<u8> = Vec::new();
    let mut c: u16 = 0;
    while c < 256
        invariant
            c <= 256,
            chars@.len() <= c,
            forall|d: u8| d < c ==> (chars@.contains(d) <==> sel.admits(d)),
            forall|k: int| 0 <= k < chars@.len() ==> #[trigger] chars@[k] < c,
            forall|i: int, j: int| 0 <= i < j < chars@.len() ==> chars@[i] < chars@[j],
            (chars@.len() == c) <==> (forall|d: u8| d < c ==> sel.admits(d)),
        decreases 256 - c,
    {
        let ghost before = chars@;
        if sel.contains(c as u8) {
            chars.push(c as u8);
            assert(chars@[before.len() as int] == c as u8);
            assert forall|d: u8| d < c + 1 implies (chars@.contains(d) <==> sel.admits(d)) by {
                if before.contains(d) {
                    let k = choose|k: int| 0 <= k < before.len() && before[k] == d;
                    assert(chars@[k] == d);
                }
            }
        } else {
            assert(!(forall|d: u8| d < c + 1 ==> sel.admits(d)));
        }
        c += 1;
    }
    if chars.len() == 256 {
        assert(Selector::All@ =~= sel@);
        assert(sel@ =~= Set::<u8>::full());
        Selector::All
    } else {
        let out = Selector::Chars(chars);
        assert(out@ =~= sel@);
        assert(sel@ != Set::<u8>::full()) by {
            let d = choose|d: u8| d < 256 && !sel.admits(d);
            assert(!sel@.contains(d));
            assert(Set::<u8>::full().contains(d));
        }
        out
    }
}

/// A branch with its selector and chain resolved.
#[derive(Debug)]
pub struct ResolvedBranch {
    pub sel: ResolvedSelector,
    pub chain: ResolvedChain,
}

/// How a resolved chain ends, with the instance that a call leads to.
#[derive(Debug)]
pub enum Next {
    Accept,
    Reject,
    Stay,
    Goto(Instance),
}

impl View for Next {
    type V = Continuation;

    open spec fn view(&self) -> Continuation {
        match self {
            Next::Accept => Continuation::Accept,
            Next::Reject => Continuation::Reject,
            Next::Stay => Continuation::Stay,
            Next::Goto(instance) => Continuation::Goto(instance@),
        }
    }
}

impl View for ResolvedBranch {
    type V = Plan;

    open spec fn view(&self) -> Plan {
        Plan {
            symbols: self.sel@,
            primitives: actions(self.chain@),
            next: continuation(self.chain@),
        }
    }
}

/// The first template named `name`, if there is one.
pub fn lookup_template(templates: &Vec<StateDef>, name: &String) -> (found: Option<usize>)
    ensures
        match found {
            Some(t) => find_template(templates@, name@, 0) == Some(t as int) && t < templates.len(),
            None => find_template(templates@, name@, 0) is None,
        },
{
    let mut t: usize = 0;
    while t < templates.len()
        invariant
            t <= templates.len(),
            find_template(templates@, name@, 0) == find_template(templates@, name@, t as int),
        decreases templates.len() - t,
    {
        if templates[t].name.eq(name) {
            return Some(t);
        }
        t += 1;
    }
    None
}

/// The index under which `key` is known, if it is.
pub fn lookup_instance(instances: &Vec<Instance>, key: &Instance) -> (found: Option<usize>)
    ensures
        match found {
            Some(i) => index_of(keys_of(instances@), key@, 0) == Some(i as int) && i
                < instances.len(),
            None => index_of(keys_of(instances@), key@, 0) is None,
        },
{
    let ghost keys = keys_of(instances@);
    let mut i: usize = 0;
    while i < instances.len()
        invariant
            i <= instances.len(),
            keys == keys_of(instances@),
            index_of(keys, key@, 0) == index_of(keys, key@, i as int),
        decreases instances.len() - i,
    {
        if instances[i].eq(key) {
            return Some(i);
        }
        i += 1;
    }
    None
}

/// The action of the flat machine for a resolved primitive.
fn to_action(prim: &ResolvedPrimitive) -> (action: Primitive)
    ensures
        action == as_action(*prim),
{
    match prim {
        ResolvedPrimitive::Movel => Primitive::Movel,
        ResolvedPrimitive::Mover => Primitive::Mover,
        ResolvedPrimitive::Print(sym) => Primitive::Print(*sym),
    }
}

/// What a call hands to the template it names: its own arguments and, if
/// anything follows the call in the chain, that rest as a last argument.
fn callee(id: &String, args: &Vec<ResolvedCallArg>, chain: &ResolvedChain, at: usize) -> (target:
    Instance)
    requires
        at < chain.parts@.len(),
        chain@[at as int] == (PartKey::Call { id: id@, args: args_key(args@) }),
    ensures
        lead(chain@, 0) == at ==> continuation(chain@) == Continuation::Goto(target@),
{
    let mut passed: Vec<ResolvedCallArg> = Vec::new();
    let mut k: usize = 0;
    while k < args.len()
        invariant
            k <= args.len(),
            passed@.len() == k,
            forall|j: int| 0 <= j < k ==> (#[trigger] passed@[j])@ == args@[j]@,
        decreases args.len() - k,
    {
        passed.push(args[k].clone());
        k += 1;
    }
    assert(args_key(passed@) =~= args_key(args@));
    let total = chain.parts.len();
    if at + 1 < total {
        let mut rest: Vec<ResolvedChainElem> = Vec::new();
        let mut k: usize = at + 1;
        while k < chain.parts.len()
            invariant
                at + 1 <= k <= chain.parts.len(),
                rest@.len() == k - (at + 1),
                forall|j: int| 0 <= j < rest@.len() ==> (#[trigger] rest@[j])@ == chain@[at + 1 + j],
            decreases chain.parts.len() - k,
        {
            rest.push(chain.parts[k].clone());
            k += 1;
        }
        let ghost before = passed@;
        let tail = ResolvedCallArg::Chain(ResolvedChain { parts: rest });
        assert(parts_key(rest@) =~= chain@.subrange(at + 1, chain@.len() as int));
        passed.push(tail);
        assert(args_key(passed@) =~= args_key(before).push(tail@));
    }
    Instance { name: id.clone(), args: passed }
}

/// Resolves the selector and the chain of one branch in `env`, and lets
/// `rest` follow the chain.
pub fn plan_branch(branch: &Branch, env: &Environment, rest: &Vec<ResolvedChainElem>) -> (out:
    Result<ResolvedBranch, CompileError>)
    ensures
        match out {
            Ok(plan) => branch_plan(*branch, env@, parts_key(rest@)) == Ok::<Plan, ErrorKey>(
                plan@,
            ),
            Err(e) => branch_plan(*branch, env@, parts_key(rest@)) == Err::<Plan, ErrorKey>(e@),
        },
{
    let sel = match branch.sel.resolve(env) {
        Ok(sel) => sel,
        Err(e) => {
            return Err(e);
        },
    };
    let chain = match branch.chain.resolve(env) {
        Ok(chain) => chain,
        Err(e) => {
            return Err(e);
        },
    };
    let ghost own = chain@;
    let mut parts = chain.parts;
    let mut i: usize = 0;
    while i < rest.len()
        invariant
            i <= rest.len(),
            parts_key(parts@) == own + parts_key(rest@).take(i as int),
        decreases rest.len() - i,
    {
        let ghost before = parts@;
        let part = rest[i].clone();
        parts.push(part);
        assert(parts_key(parts@) =~= parts_key(before).push(part@));
        assert(parts_key(rest@).take(i + 1) =~= parts_key(rest@).take(i as int).push(rest@[i as int]@));
        assert(own + parts_key(rest@).take(i + 1) =~= (own + parts_key(rest@).take(i as int)).push(
            rest@[i as int]@,
        ));
        i += 1;
    }
    assert(parts_key(rest@).take(i as int) =~= parts_key(rest@));
    Ok(ResolvedBranch { sel, chain: ResolvedChain { parts } })
}

/// The primitives that a chain starts with, and how it ends.
pub fn ending(chain: &ResolvedChain) -> (out: (Vec<Primitive>, Next))
    ensures
        out.0@ == actions(chain@),
        out.1@ == continuation(chain@),
{
    let ghost parts = chain@;
    let mut primitives: Vec<Primitive> = Vec::new();
    let mut i: usize = 0;
    let mut stop = false;
    while i < chain.parts.len() && !stop
        invariant
            i <= chain.parts.len(),
            parts == chain@,
            parts.len() == chain.parts@.len(),
            lead(parts, 0) == lead(parts, i as int),
            primitives@ == Seq::new(i as nat, |k: int| as_action(parts[k]->Prim_0)),
            stop ==> i < chain.parts.len() && !(parts[i as int] is Prim),
        decreases chain.parts.len() - i + (if stop { 0int } else { 1int }),
    {
        match &chain.parts[i] {
            ResolvedChainElem::Prim(prim) => {
                primitives.push(to_action(prim));
                assert(primitives@ =~= Seq::new(
                    (i + 1) as nat,
                    |k: int| as_action(parts[k]->Prim_0),
                ));
                i += 1;
            },
            _ => {
                stop = true;
            },
        }
    }
    assert(lead(parts, 0) == i);
    let next = if i >= chain.parts.len() {
        Next::Stay
    } else {
        match &chain.parts[i] {
            ResolvedChainElem::Accept => Next::Accept,
            ResolvedChainElem::Reject => Next::Reject,
            ResolvedChainElem::Call { id, args } => Next::Goto(callee(id, args, chain, i)),
            ResolvedChainElem::Prim(_) => Next::Stay,
        }
    };
    (primitives, next)
}

/// The plans of a list of resolved branches, one for one.
pub open spec fn plans_of(branches: Seq<ResolvedBranch>) -> Seq<Plan> {
    Seq::new(branches.len(), |i: int| branches[i]@)
}

/// Tests whether the arguments fit the parameters: one for each, or one
/// for each and a chain to go on with.
fn fits(params: &Vec<String>, args: &Vec<ResolvedCallArg>) -> (yes: bool)
    ensures
        yes == (surplus(params@.len(), args_key(args@)) is Some),
{
    assert(args_key(args@).len() == args@.len());
    if args.len() == params.len() {
        true
    } else if args.len() > 0 && args.len() - 1 == params.len() {
        assert(args_key(args@).last() == args@[args@.len() - 1]@);
        args[args.len() - 1].is_chain()
    } else {
        false
    }
}

/// What the arguments leave to go on with once the parameters are bound.
fn surplus_of(params: &Vec<String>, args: &Vec<ResolvedCallArg>) -> (rest: Vec<ResolvedChainElem>)
    ensures
        parts_key(rest@) == match surplus(params@.len(), args_key(args@)) {
            Some(rest) => rest,
            None => Seq::empty(),
        },
{
    assert(args_key(args@).len() == args@.len());
    let mut rest: Vec<ResolvedChainElem> = Vec::new();
    assert(parts_key(rest@) =~= Seq::<PartKey>::empty());
    if args.len() > 0 && args.len() - 1 == params.len() {
        assert(args_key(args@).last() == args@[args@.len() - 1]@);
        match &args[args.len() - 1] {
            ResolvedCallArg::Chain(chain) => {
                let mut i: usize = 0;
                while i < chain.parts.len()
                    invariant
                        i <= chain.parts.len(),
                        rest@.len() == i,
                        forall|k: int| 0 <= k < i ==> (#[trigger] rest@[k])@ == chain.parts@[k]@,
                    decreases chain.parts.len() - i,
                {
                    rest.push(chain.parts[i].clone());
                    i += 1;
                }
                assert(parts_key(rest@) =~= chain@);
            },
            _ => {},
        }
    }
    rest
}

/// Looks `key` up among the instances and, if it is new, checks it and
/// gives it the next index.
fn enroll_instance(
    templates: &Vec<StateDef>,
    instances: &mut Vec<Instance>,
    key: Instance,
    limit: usize,
) -> (out: Result<usize, CompileError>)
    ensures
        match out {
            Ok(i) => enroll(templates@, keys_of(old(instances)@), key@, limit as int) == Ok::<
                (Seq<InstanceKey>, int),
                ErrorKey,
            >((keys_of(final(instances)@), i as int)),
            Err(e) => enroll(templates@, keys_of(old(instances)@), key@, limit as int) == Err::<
                (Seq<InstanceKey>, int),
                ErrorKey,
            >(e@),
        },
        old(instances)@.is_prefix_of(final(instances)@),
        old(instances)@.len() <= limit ==> final(instances)@.len() <= limit,
        out is Err ==> final(instances)@ == old(instances)@,
{
    match lookup_instance(instances, &key) {
        Some(i) => Ok(i),
        None => {
            let t = match lookup_template(templates, &key.name) {
                Some(t) => t,
                None => {
                    return Err(CompileError::UnknownState(key.name));
                },
            };
            if !fits(&templates[t].params, &key.args) {
                return Err(CompileError::ArityMismatch(key.name));
            }
            if instances.len() >= limit {
                return Err(CompileError::SpecializationExplosion);
            }
            let index = instances.len();
            instances.push(key);
            assert(keys_of(instances@) =~= keys_of(old(instances)@).push(key@));
            Ok(index)
        },
    }
}

/// Turns resolved branches into branches of the machine, enrolling the
/// instances that their calls lead to.
fn link_plans(
    templates: &Vec<StateDef>,
    plans: &Vec<ResolvedBranch>,
    instances: &mut Vec<Instance>,
    me: usize,
    limit: usize,
) -> (out: Result<Vec<crate::concrete::Branch>, CompileError>)
    ensures
        match out {
            Ok(branches) => link(
                templates@,
                plans_of(plans@),
                keys_of(old(instances)@),
                me as int,
                limit as int,
            ) == Ok::<(Seq<BranchView>, Seq<InstanceKey>), ErrorKey>(
                (branches_view(branches@), keys_of(final(instances)@)),
            ),
            Err(e) => link(
                templates@,
                plans_of(plans@),
                keys_of(old(instances)@),
                me as int,
                limit as int,
            ) == Err::<(Seq<BranchView>, Seq<InstanceKey>), ErrorKey>(e@),
        },
        old(instances)@.is_prefix_of(final(instances)@),
        old(instances)@.len() <= limit ==> final(instances)@.len() <= limit,
        out is Ok ==> forall|j: int|
            0 <= j < out->Ok_0@.len() ==> (#[trigger] out->Ok_0@[j]).sel.tidy(),
{
    let ghost all = plans_of(plans@);
    let ghost keys = keys_of(instances@);
    let mut branches: Vec<crate::concrete::Branch> = Vec::new();
    let mut k: usize = 0;
    assert(all.take(0) =~= Seq::<Plan>::empty());
    assert(branches_view(branches@) =~= Seq::<BranchView>::empty());
    while k < plans.len()
        invariant
            k <= plans.len(),
            all == plans_of(plans@),
            keys == keys_of(old(instances)@),
            old(instances)@.is_prefix_of(instances@),
            old(instances)@.len() <= limit ==> instances@.len() <= limit,
            forall|j: int| 0 <= j < branches@.len() ==> (#[trigger] branches@[j]).sel.tidy(),
            link(templates@, all.take(k as int), keys, me as int, limit as int) == Ok::<
                (Seq<BranchView>, Seq<InstanceKey>),
                ErrorKey,
            >((branches_view(branches@), keys_of(instances@))),
        decreases plans.len() - k,
    {
        proof {
            assert(all.take(k + 1).drop_last() =~= all.take(k as int));
            assert(all.take(k + 1).last() == plans@[k as int]@);
        }
        let plan = &plans[k];
        let (primitives, next) = ending(&plan.chain);
        let call = match next {
            Next::Accept => Call::Accept,
            Next::Reject => Call::Reject,
            Next::Stay => Call::State(me),
            Next::Goto(target) => match enroll_instance(templates, instances, target, limit) {
                Ok(index) => Call::State(index),
                Err(e) => {
                    proof {
                        lemma_link_fault(templates@, all, keys, me as int, limit as int, k + 1);
                    }
                    return Err(e);
                },
            },
        };
        let ghost before = branches@;
        let branch = crate::concrete::Branch { sel: materialize(&plan.sel), primitives, call };
        branches.push(branch);
        assert(branches_view(branches@) =~= branches_view(before).push(branch@));
        k += 1;
    }
    assert(all.take(k as int) =~= all);
    Ok(branches)
}

/// Binds parameters to arguments, position by position.
fn bind_arguments(params: &Vec<String>, args: &Vec<ResolvedCallArg>) -> (env: Environment)
    ensures
        env@ == scope(params@, args_key(args@)),
{
    let count = if params.len() <= args.len() {
        params.len()
    } else {
        args.len()
    };
    let mut env = Environment::new();
    let mut i: usize = 0;
    while i < count
        invariant
            i <= count,
            count <= params.len(),
            count <= args.len(),
            env@ == bound_first(params@, args_key(args@), i as int),
        decreases count - i,
    {
        env.bind(params[i].clone(), args[i].clone());
        i += 1;
    }
    env
}

/// Builds the state of the instance at index `me`.
fn build_state(
    templates: &Vec<StateDef>,
    instances: &mut Vec<Instance>,
    me: usize,
    limit: usize,
) -> (out: Result<State, CompileError>)
    requires
        me < old(instances)@.len(),
    ensures
        match out {
            Ok(state) => build(templates@, keys_of(old(instances)@), me as int, limit as int)
                == Ok::<(Seq<BranchView>, Seq<InstanceKey>), ErrorKey>(
                (state@, keys_of(final(instances)@)),
            ),
            Err(e) => build(templates@, keys_of(old(instances)@), me as int, limit as int)
                == Err::<(Seq<BranchView>, Seq<InstanceKey>), ErrorKey>(e@),
        },
        old(instances)@.is_prefix_of(final(instances)@),
        old(instances)@.len() <= limit ==> final(instances)@.len() <= limit,
        out is Ok ==> forall|j: int|
            0 <= j < out->Ok_0.branches@.len() ==> (#[trigger] out->Ok_0.branches@[j]).sel.tidy(),
{
    let t = match lookup_template(templates, &instances[me].name) {
        Some(t) => t,
        None => {
            return Err(CompileError::UnknownState(instances[me].name.clone()));
        },
    };
    let template = &templates[t];
    let env = bind_arguments(&template.params, &instances[me].args);
    let rest = surplus_of(&template.params, &instances[me].args);
    let ghost outcomes = branch_plans(template.branches@, env@, parts_key(rest@));
    let mut plans: Vec<ResolvedBranch> = Vec::new();
    let mut k: usize = 0;
    assert(outcomes.take(0) =~= Seq::<Result<Plan, ErrorKey>>::empty());
    assert(plans_of(plans@) =~= Seq::<Plan>::empty());
    while k < template.branches.len()
        invariant
            k <= template.branches.len(),
            outcomes == branch_plans(template.branches@, env@, parts_key(rest@)),
            instances@ == old(instances)@,
            collect(outcomes) is Err ==> build(
                templates@,
                keys_of(instances@),
                me as int,
                limit as int,
            ) == Err::<(Seq<BranchView>, Seq<InstanceKey>), ErrorKey>(collect(outcomes)->Err_0),
            collect(outcomes.take(k as int)) == Ok::<Seq<Plan>, ErrorKey>(plans_of(plans@)),
        decreases template.branches.len() - k,
    {
        proof {
            lemma_collect_step(outcomes, k as int);
        }
        match plan_branch(&template.branches[k], &env, &rest) {
            Ok(plan) => {
                let ghost before = plans@;
                plans.push(plan);
                assert(plans_of(plans@) =~= plans_of(before).push(plan@));
            },
            Err(e) => {
                proof {
                    lemma_collect_fault(outcomes, k + 1);
                }
                return Err(e);
            },
        }
        k += 1;
    }
    assert(outcomes.take(k as int) =~= outcomes);
    match link_plans(templates, &plans, instances, me, limit) {
        Ok(branches) => {
            let state = State { branches };
            assert(state@ =~= branches_view(branches@));
            Ok(state)
        },
        Err(e) => Err(e),
    }
}

/// Builds states until every known instance has one.
fn grow_machine(
    templates: &Vec<StateDef>,
    instances: &mut Vec<Instance>,
    states: &mut Vec<State>,
    limit: usize,
) -> (out: Result<(), CompileError>)
    requires
        old(states)@.len() <= old(instances)@.len() <= limit,
        tidy_states(old(states)@),
    ensures
        tidy_states(final(states)@),
        out is Ok ==> final(states)@.len() == final(instances)@.len(),
        match out {
            Ok(_) => grow(
                templates@,
                keys_of(old(instances)@),
                states_view(old(states)@),
                limit as int,
            ) == Ok::<(Seq<InstanceKey>, Seq<Seq<BranchView>>), ErrorKey>(
                (keys_of(final(instances)@), states_view(final(states)@)),
            ),
            Err(e) => grow(
                templates@,
                keys_of(old(instances)@),
                states_view(old(states)@),
                limit as int,
            ) == Err::<(Seq<InstanceKey>, Seq<Seq<BranchView>>), ErrorKey>(e@),
        },
        old(instances)@.is_prefix_of(final(instances)@),
        old(states)@.is_prefix_of(final(states)@),
        final(instances)@.len() <= limit,
{
    while states.len() < instances.len()
        invariant
            states@.len() <= instances@.len() <= limit,
            tidy_states(states@),
            old(instances)@.is_prefix_of(instances@),
            old(states)@.is_prefix_of(states@),
            grow(templates@, keys_of(old(instances)@), states_view(old(states)@), limit as int)
                == grow(templates@, keys_of(instances@), states_view(states@), limit as int),
        decreases limit - states.len(),
    {
        let me = states.len();
        match build_state(templates, instances, me, limit) {
            Ok(state) => {
                let ghost before = states@;
                states.push(state);
                assert(states_view(states@) =~= states_view(before).push(state@));
            },
            Err(e) => {
                return Err(e);
            },
        }
    }
    Ok(())
}

/// Builds a machine out of templates, one instance at a time, and remembers
/// every instance it has built.
#[derive(Debug)]
pub struct Specializer {
    templates: Vec<StateDef>,
    instances: Vec<Instance>,
    machine: Machine,
    limit: usize,
}

impl View for Specializer {
    type V = Progress;

    closed spec fn view(&self) -> Progress {
        Progress { keys: keys_of(self.instances@), states: self.machine@ }
    }
}

impl Specializer {
    /// The templates that the specialiser instantiates.
    pub closed spec fn templates(&self) -> Seq<StateDef> {
        self.templates@
    }

    /// The largest number of states that the specialiser will build.
    pub closed spec fn limit(&self) -> int {
        self.limit as int
    }

    /// Whether every selector of the machine built so far is tidy.
    pub closed spec fn tidy(&self) -> bool {
        tidy_states(self.machine.states@)
    }

    /// What holds of a specialiser between two requests.
    pub open spec fn wf(&self) -> bool {
        &&& self.limit() <= usize::MAX
        &&& settled(self@, self.limit())
        &&& faithful(self.templates(), self@)
        &&& self.tidy()
    }

    /// A specialiser that has built nothing yet and will build at most
    /// `limit` states.
    pub fn new(templates: Vec<StateDef>, limit: usize) -> (fresh: Self)
        ensures
            fresh.wf(),
            fresh.templates() == templates@,
            fresh.limit() == limit,
            fresh@ == nothing(),
    {
        let fresh = Specializer {
            templates,
            instances: Vec::new(),
            machine: Machine { states: Vec::new() },
            limit,
        };
        assert(fresh@.keys =~= Seq::<InstanceKey>::empty());
        assert(fresh@.states =~= Seq::<Seq<BranchView>>::empty());
        fresh
    }

    /// The index of the state that stands for template `name` with the
    /// arguments `args`. Where an instance like it was met before, that
    /// one's index is returned and nothing is built; a new one is built
    /// together with every instance that it leads to. What was known and
    /// built before keeps its place. After a fault the specialiser is as it
    /// was before the call.
    pub fn specialize(&mut self, name: String, args: Vec<ResolvedCallArg>) -> (out: Result<
        usize,
        CompileError,
    >)
        requires
            old(self).wf(),
        ensures
            final(self).wf(),
            final(self).templates() == old(self).templates(),
            final(self).limit() == old(self).limit(),
            ({
                let (after, index) = specialized(
                    old(self).templates(),
                    old(self).limit(),
                    old(self)@,
                    InstanceKey { name: name@, args: args_key(args@) },
                );
                &&& final(self)@ == after
                &&& match out {
                    Ok(i) => index == Ok::<int, ErrorKey>(i as int),
                    Err(e) => index == Err::<int, ErrorKey>(e@),
                }
            }),
            old(self)@.keys.is_prefix_of(final(self)@.keys),
            old(self)@.states.is_prefix_of(final(self)@.states),
            ({
                let key = InstanceKey { name: name@, args: args_key(args@) };
                &&& out is Ok ==> index_of(final(self)@.keys, key, 0) == Some(out->Ok_0 as int)
                &&& index_of(old(self)@.keys, key, 0) is Some ==> final(self)@ == old(self)@
                    && out is Ok && index_of(old(self)@.keys, key, 0) == Some(out->Ok_0 as int)
            }),
    {
        proof {
            lemma_specialize_appends(
                old(self).templates(),
                old(self).limit(),
                old(self)@,
                InstanceKey { name: name@, args: args_key(args@) },
            );
        }
        let known = self.instances.len();
        let built = self.machine.states.len();
        let ghost key = InstanceKey { name: name@, args: args_key(args@) };
        assert(self.machine@ =~= states_view(self.machine.states@));
        let index = match enroll_instance(
            &self.templates,
            &mut self.instances,
            Instance { name, args },
            self.limit,
        ) {
            Ok(index) => index,
            Err(e) => {
                return Err(e);
            },
        };
        let ghost enrolled = keys_of(self.instances@);
        proof {
            lemma_enroll_extends(self.templates@, old(self)@.keys, key, self.limit as int);
            lemma_targets_below_more(
                old(self)@.states,
                old(self)@.keys.len() as int,
                enrolled.len() as int,
            );
        }
        match grow_machine(
            &self.templates,
            &mut self.instances,
            &mut self.machine.states,
            self.limit,
        ) {
            Ok(_) => {
                proof {
                    assert(self.machine@ =~= states_view(self.machine.states@));
                    lemma_grow_settles(
                        self.templates@,
                        enrolled,
                        old(self)@.states,
                        self.limit as int,
                    );
                    lemma_specialize_is_faithful(
                        self.templates@,
                        self.limit as int,
                        old(self)@,
                        key,
                    );
                }
                Ok(index)
            },
            Err(e) => {
                self.instances.truncate(known);
                self.machine.states.truncate(built);
                assert(self.instances@ =~= old(self).instances@);
                assert(self.machine.states@ =~= old(self).machine.states@);
                Err(e)
            },
        }
    }

    /// The number of states built so far.
    pub fn state_count(&self) -> (count: usize)
        ensures
            count == self@.states.len(),
    {
        self.machine.states.len()
    }

    /// The machine as built so far.
    pub fn machine(&self) -> (machine: &Machine)
        ensures
            machine@ == self@.states,
            self.tidy() == tidy_states(machine.states@),
    {
        &self.machine
    }

    /// Hands the machine over.
    pub fn into_machine(self) -> (machine: Machine)
        ensures
            machine@ == self@.states,
            self.tidy() == tidy_states(machine.states@),
    {
        self.machine
    }
}

/// The machine that starts in the template `entry` instantiated with
/// `args`; its state has index 0. At most `limit` states are built, and no
/// machine is returned after a fault.
pub fn compile(
    templates: Vec<StateDef>,
    entry: String,
    args: Vec<ResolvedCallArg>,
    limit: usize,
) -> (out: Result<Machine, CompileError>)
    ensures
        ({
            let (after, index) = specialized(
                templates@,
                limit as int,
                nothing(),
                InstanceKey { name: entry@, args: args_key(args@) },
            );
            match out {
                Ok(machine) => index == Ok::<int, ErrorKey>(0) && machine@ == after.states
                    && closed(machine@) && 0 < machine@.len() <= limit && faithful(
                    templates@,
                    after,
                ) && distinct(after.keys) && tidy_states(machine.states@),
                Err(e) => index == Err::<int, ErrorKey>(e@),
            }
        }),
{
    let ghost all = templates@;
    let ghost key = InstanceKey { name: entry@, args: args_key(args@) };
    let mut specializer = Specializer::new(templates, limit);
    match specializer.specialize(entry, args) {
        Ok(_) => {
            proof {
                lemma_enroll_extends(all, Seq::empty(), key, limit as int);
                let known = enroll(all, Seq::empty(), key, limit as int)->Ok_0.0;
                lemma_grow_settles(all, known, Seq::empty(), limit as int);
            }
            Ok(specializer.into_machine())
        },
        Err(e) => Err(e),
    }
}

} // verus!
