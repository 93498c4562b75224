//! What holds of specialisation, proved of its model.

use crate::concrete::{targets_below, BranchView, Call};
use crate::error::{lemma_collect_first_fault, ErrorKey};
use crate::skeleton::{is_resolution_fault, lemma_chain_fault, lemma_selector_fault, StateDef};
use crate::specialize::model::{
    alike, all_resolve, all_within, branch_plans, build, calls_below, calls_stay_within, distinct,
    enroll, faithful, find_template, fits_a_template, fits_under, grow, index_of, link,
    linked_branch, plans_for, scope, self_contained, settled, specialized, state_matches, surplus,
    Continuation, InstanceKey, Plan, Progress,
};
use vstd::prelude::*;

verus! {

/// A fault while linking the first plans is the fault of linking them all.
pub proof fn lemma_link_fault(
    templates: Seq<StateDef>,
    plans: Seq<Plan>,
    keys: Seq<InstanceKey>,
    me: int,
    limit: int,
    k: int,
)
    requires
        0 <= k <= plans.len(),
        link(templates, plans.take(k), keys, me, limit) is Err,
    ensures
        link(templates, plans, keys, me, limit) == link(templates, plans.take(k), keys, me, limit),
    decreases plans.len() - k,
{
    if k == plans.len() {
        assert(plans.take(k) =~= plans);
    } else {
        assert(plans.take(k + 1).drop_last() =~= plans.take(k));
        lemma_link_fault(templates, plans, keys, me, limit, k + 1);
    }
}

/// Where `index_of` finds a place, an instance like the key stands there,
/// and none before it.
pub proof fn lemma_index_of_found(keys: Seq<InstanceKey>, key: InstanceKey, from: int)
    requires
        0 <= from,
    ensures
        match index_of(keys, key, from) {
            Some(i) => from <= i < keys.len() && alike(keys[i], key) && forall|j: int|
                from <= j < i ==> !alike(#[trigger] keys[j], key),
            None => forall|j: int| from <= j < keys.len() ==> !alike(#[trigger] keys[j], key),
        },
    decreases keys.len() - from,
{
    if from < keys.len() && !alike(keys[from], key) {
        lemma_index_of_found(keys, key, from + 1);
    }
}

/// The first place of a key is the same in every longer list.
pub proof fn lemma_index_of_extends(
    keys: Seq<InstanceKey>,
    longer: Seq<InstanceKey>,
    key: InstanceKey,
    from: int,
)
    requires
        0 <= from,
        keys.is_prefix_of(longer),
        index_of(keys, key, from) is Some,
    ensures
        index_of(longer, key, from) == index_of(keys, key, from),
    decreases keys.len() - from,
{
    assert(from < keys.len());
    assert(longer[from] == keys[from]);
    if !alike(keys[from], key) {
        lemma_index_of_extends(keys, longer, key, from + 1);
    }
}

/// Instances that are pairwise unlike are pairwise different.
pub proof fn lemma_distinct_has_no_duplicates(keys: Seq<InstanceKey>)
    requires
        distinct(keys),
    ensures
        keys.no_duplicates(),
{
    assert forall|i: int, j: int|
        0 <= i < keys.len() && 0 <= j < keys.len() && i != j implies keys[i] != keys[j] by {
        assert(!alike(keys[i], keys[j]));
    }
}

/// Instances that are alike are found at the same place.
pub proof fn lemma_index_of_alike(
    keys: Seq<InstanceKey>,
    key: InstanceKey,
    other: InstanceKey,
    from: int,
)
    requires
        alike(key, other),
    ensures
        index_of(keys, key, from) == index_of(keys, other, from),
    decreases keys.len() - from,
{
    if 0 <= from < keys.len() && !alike(keys[from], key) {
        lemma_index_of_alike(keys, key, other, from + 1);
    }
}

/// Raising the bound keeps every target below it.
pub proof fn lemma_targets_below_more(states: Seq<Seq<BranchView>>, bound: int, more: int)
    requires
        targets_below(states, bound),
        bound <= more,
    ensures
        targets_below(states, more),
{
    assert forall|i: int, j: int|
        0 <= i < states.len() && 0 <= j < states[i].len() implies match #[trigger] states[i][j].call {
        Call::State(k) => k < more,
        _ => true,
    } by {
        let call = states[i][j].call;
        match call {
            Call::State(k) => {
                assert(k < bound);
            },
            _ => {},
        }
    }
}

/// Enrolling only ever appends, keeps the ceiling, and returns the first
/// place of the key.
pub proof fn lemma_enroll_extends(
    templates: Seq<StateDef>,
    keys: Seq<InstanceKey>,
    key: InstanceKey,
    limit: int,
)
    requires
        enroll(templates, keys, key, limit) is Ok,
    ensures
        ({
            let (known, index) = enroll(templates, keys, key, limit)->Ok_0;
            &&& keys.is_prefix_of(known)
            &&& keys.len() <= limit ==> known.len() <= limit
            &&& distinct(keys) ==> distinct(known)
            &&& index_of(known, key, 0) == Some(index)
            &&& 0 <= index < known.len()
        }),
{
    lemma_index_of_found(keys, key, 0);
    let (known, index) = enroll(templates, keys, key, limit)->Ok_0;
    lemma_index_of_found(known, key, 0);
    if index_of(keys, key, 0) is None {
        assert(known[keys.len() as int] == key);
        assert forall|j: int| 0 <= j < keys.len() implies !alike(#[trigger] known[j], key) by {
            assert(known[j] == keys[j]);
        }
        if distinct(keys) {
            assert forall|i: int, j: int|
                0 <= i < known.len() && 0 <= j < known.len() && i != j implies !alike(
                known[i],
                known[j],
            ) by {
                if i < keys.len() {
                    assert(known[i] == keys[i]);
                }
                if j < keys.len() {
                    assert(known[j] == keys[j]);
                }
            }
        }
    }
}

/// Linking only ever appends to the known instances, keeps the ceiling,
/// and names only states of known instances.
pub proof fn lemma_link_extends(
    templates: Seq<StateDef>,
    plans: Seq<Plan>,
    keys: Seq<InstanceKey>,
    me: int,
    limit: int,
)
    requires
        0 <= me < keys.len() <= limit <= usize::MAX,
        link(templates, plans, keys, me, limit) is Ok,
    ensures
        ({
            let (branches, known) = link(templates, plans, keys, me, limit)->Ok_0;
            &&& keys.is_prefix_of(known)
            &&& known.len() <= limit
            &&& distinct(keys) ==> distinct(known)
            &&& calls_below(branches, known.len() as int)
        }),
    decreases plans.len(),
{
    if plans.len() > 0 {
        lemma_link_extends(templates, plans.drop_last(), keys, me, limit);
        let (front, middle) = link(templates, plans.drop_last(), keys, me, limit)->Ok_0;
        let (branches, known) = link(templates, plans, keys, me, limit)->Ok_0;
        match plans.last().next {
            Continuation::Goto(key) => {
                lemma_enroll_extends(templates, middle, key, limit);
            },
            _ => {},
        }
        assert(middle.is_prefix_of(known));
        assert forall|j: int| 0 <= j < branches.len() implies match (#[trigger] branches[j]).call {
            Call::State(k) => k < known.len(),
            _ => true,
        } by {
            if j < front.len() {
                assert(branches[j] == front[j]);
            }
        }
    }
}

/// Growing only ever appends, and ends with one state for every known
/// instance, each continuation naming one of them.
pub proof fn lemma_grow_settles(
    templates: Seq<StateDef>,
    keys: Seq<InstanceKey>,
    states: Seq<Seq<BranchView>>,
    limit: int,
)
    requires
        states.len() <= keys.len() <= limit <= usize::MAX,
        distinct(keys),
        targets_below(states, keys.len() as int),
        grow(templates, keys, states, limit) is Ok,
    ensures
        ({
            let (known, built) = grow(templates, keys, states, limit)->Ok_0;
            &&& keys.is_prefix_of(known)
            &&& states.is_prefix_of(built)
            &&& settled(Progress { keys: known, states: built }, limit)
        }),
    decreases limit - states.len(),
{
    if states.len() < keys.len() {
        let me = states.len() as int;
        let plans = plans_for(templates, keys[me])->Ok_0;
        lemma_link_extends(templates, plans, keys, me, limit);
        let (branches, middle) = build(templates, keys, me, limit)->Ok_0;
        let next = states.push(branches);
        lemma_targets_below_more(states, keys.len() as int, middle.len() as int);
        assert forall|i: int, j: int|
            0 <= i < next.len() && 0 <= j < next[i].len() implies match #[trigger] next[i][j].call {
            Call::State(k) => k < middle.len(),
            _ => true,
        } by {
            if i < states.len() {
                assert(next[i] == states[i]);
                let call = states[i][j].call;
            } else {
                assert(next[i] == branches);
                let call = branches[j].call;
            }
        }
        lemma_grow_settles(templates, middle, next, limit);
        let (known, built) = grow(templates, middle, next, limit)->Ok_0;
        assert(states.is_prefix_of(built)) by {
            assert(states =~= next.subrange(0, states.len() as int));
        }
    }
}

/// A request only ever appends: the instances and states known before keep
/// their places, and the instance asked for is found at the index returned.
pub proof fn lemma_specialize_appends(
    templates: Seq<StateDef>,
    limit: int,
    before: Progress,
    key: InstanceKey,
)
    requires
        settled(before, limit),
        limit <= usize::MAX,
    ensures
        ({
            let (after, index) = specialized(templates, limit, before, key);
            &&& settled(after, limit)
            &&& before.keys.is_prefix_of(after.keys)
            &&& before.states.is_prefix_of(after.states)
            &&& index is Ok ==> index_of(after.keys, key, 0) == Some(index->Ok_0)
            &&& index_of(before.keys, key, 0) is Some ==> after == before && index == Ok::<
                int,
                ErrorKey,
            >(index_of(before.keys, key, 0)->Some_0)
        }),
{
    if specialized(templates, limit, before, key).1 is Ok {
        let (known, index) = enroll(templates, before.keys, key, limit)->Ok_0;
        lemma_enroll_extends(templates, before.keys, key, limit);
        lemma_targets_below_more(before.states, before.keys.len() as int, known.len() as int);
        lemma_grow_settles(templates, known, before.states, limit);
        let (keys, states) = grow(templates, known, before.states, limit)->Ok_0;
        lemma_index_of_extends(known, keys, key, 0);
    }
    if index_of(before.keys, key, 0) is Some {
        lemma_index_of_found(before.keys, key, 0);
    }
}

/// Asking again for an instance, or for one that is like it though written
/// otherwise, gives the same index again, and the second request builds
/// nothing: the progress after it is the progress before it.
pub proof fn lemma_specialize_is_memoized(
    templates: Seq<StateDef>,
    limit: int,
    before: Progress,
    key: InstanceKey,
    again: InstanceKey,
)
    requires
        settled(before, limit),
        limit <= usize::MAX,
        alike(key, again),
        specialized(templates, limit, before, key).1 is Ok,
    ensures
        ({
            let (after, index) = specialized(templates, limit, before, key);
            &&& settled(after, limit)
            &&& specialized(templates, limit, after, again) == (after, index)
            &&& before.keys.is_prefix_of(after.keys)
            &&& before.states.is_prefix_of(after.states)
        }),
{
    lemma_specialize_appends(templates, limit, before, key);
    let (after, index) = specialized(templates, limit, before, key);
    lemma_index_of_alike(after.keys, key, again, 0);
    lemma_specialize_appends(templates, limit, after, again);
}

/// The plans of an instance fail only over an unknown template or with a
/// fault of resolution.
pub proof fn lemma_plans_fault(templates: Seq<StateDef>, key: InstanceKey)
    ensures
        plans_for(templates, key) is Err ==> plans_for(templates, key)->Err_0 is UnknownState
            || is_resolution_fault(plans_for(templates, key)->Err_0),
{
    if plans_for(templates, key) is Err && find_template(templates, key.name, 0) is Some {
        let t = find_template(templates, key.name, 0)->Some_0;
        let env = scope(templates[t].params@, key.args);
        let rest = match surplus(templates[t].params@.len(), key.args) {
            Some(rest) => rest,
            None => Seq::empty(),
        };
        let outcomes = branch_plans(templates[t].branches@, env, rest);
        let at = lemma_collect_first_fault(outcomes);
        let branch = templates[t].branches@[at];
        lemma_selector_fault(branch.sel, env);
        lemma_chain_fault(branch.chain, env);
    }
}

/// Enrolling an instance of `reach` keeps the known instances within
/// `reach`; it meets the ceiling only if `reach` does not fit under it, and
/// an instance that fits a template meets no other fault.
proof fn lemma_enroll_within(
    templates: Seq<StateDef>,
    keys: Seq<InstanceKey>,
    key: InstanceKey,
    limit: int,
    reach: Set<InstanceKey>,
)
    requires
        reach.contains(key),
        all_within(keys, reach),
        distinct(keys),
    ensures
        fits_under(reach, limit) ==> enroll(templates, keys, key, limit) != Err::<
            (Seq<InstanceKey>, int),
            ErrorKey,
        >(ErrorKey::SpecializationExplosion),
        enroll(templates, keys, key, limit) is Ok ==> all_within(
            enroll(templates, keys, key, limit)->Ok_0.0,
            reach,
        ),
        fits_a_template(templates, key) ==> enroll(templates, keys, key, limit) is Ok || enroll(
            templates,
            keys,
            key,
            limit,
        ) == Err::<(Seq<InstanceKey>, int), ErrorKey>(ErrorKey::SpecializationExplosion),
{
    lemma_index_of_found(keys, key, 0);
    if index_of(keys, key, 0) is None {
        if fits_under(reach, limit) {
            let known = keys.to_set();
            lemma_distinct_has_no_duplicates(keys);
            keys.unique_seq_to_set();
            assert(known.subset_of(reach)) by {
                assert forall|k: InstanceKey| known.contains(k) implies reach.contains(k) by {
                    let i = choose|i: int| 0 <= i < keys.len() && keys[i] == k;
                    assert(reach.contains(keys[i]));
                }
            }
            assert(!known.contains(key)) by {
                if known.contains(key) {
                    let i = choose|i: int| 0 <= i < keys.len() && keys[i] == key;
                    assert(alike(keys[i], key));
                    assert(false);
                }
            }
            known.lemma_subset_not_in_lt(reach, key);
        }
        if enroll(templates, keys, key, limit) is Ok {
            let grown = keys.push(key);
            assert forall|i: int| 0 <= i < grown.len() implies reach.contains(
                #[trigger] grown[i],
            ) by {
                if i < keys.len() {
                    assert(grown[i] == keys[i]);
                }
            }
        }
    }
}

/// Linking plans whose calls stay in `reach` keeps the known instances
/// within `reach`; it meets the ceiling only if `reach` does not fit under
/// it, and where every instance of `reach` resolves it meets no other fault.
proof fn lemma_link_within(
    templates: Seq<StateDef>,
    plans: Seq<Plan>,
    keys: Seq<InstanceKey>,
    me: int,
    limit: int,
    reach: Set<InstanceKey>,
)
    requires
        0 <= me < keys.len() <= limit <= usize::MAX,
        all_within(keys, reach),
        distinct(keys),
        forall|j: int|
            0 <= j < plans.len() && (#[trigger] plans[j]).next is Goto ==> reach.contains(
                plans[j].next->Goto_0,
            ),
    ensures
        fits_under(reach, limit) ==> link(templates, plans, keys, me, limit) != Err::<
            (Seq<BranchView>, Seq<InstanceKey>),
            ErrorKey,
        >(ErrorKey::SpecializationExplosion),
        link(templates, plans, keys, me, limit) is Ok ==> all_within(
            link(templates, plans, keys, me, limit)->Ok_0.1,
            reach,
        ),
        all_resolve(templates, reach) ==> link(templates, plans, keys, me, limit) is Ok || link(
            templates,
            plans,
            keys,
            me,
            limit,
        ) == Err::<(Seq<BranchView>, Seq<InstanceKey>), ErrorKey>(
            ErrorKey::SpecializationExplosion,
        ),
    decreases plans.len(),
{
    if plans.len() > 0 {
        let front = plans.drop_last();
        assert forall|j: int| 0 <= j < front.len() && (#[trigger] front[j]).next is Goto implies reach.contains(
            front[j].next->Goto_0,
        ) by {
            assert(front[j] == plans[j]);
        }
        lemma_link_within(templates, front, keys, me, limit, reach);
        if link(templates, front, keys, me, limit) is Ok {
            lemma_link_extends(templates, front, keys, me, limit);
            let (branches, middle) = link(templates, front, keys, me, limit)->Ok_0;
            match plans.last().next {
                Continuation::Goto(key) => {
                    assert(plans[plans.len() - 1].next is Goto);
                    lemma_enroll_within(templates, middle, key, limit, reach);
                },
                _ => {},
            }
        }
    }
}

/// Growing from instances within `reach` stays within `reach`; it meets the
/// ceiling only if `reach` does not fit under it, and where every instance
/// of `reach` resolves it meets no other fault.
proof fn lemma_grow_within(
    templates: Seq<StateDef>,
    keys: Seq<InstanceKey>,
    states: Seq<Seq<BranchView>>,
    limit: int,
    reach: Set<InstanceKey>,
)
    requires
        states.len() <= keys.len() <= limit <= usize::MAX,
        calls_stay_within(templates, reach),
        all_within(keys, reach),
        distinct(keys),
    ensures
        fits_under(reach, limit) ==> grow(templates, keys, states, limit) != Err::<
            (Seq<InstanceKey>, Seq<Seq<BranchView>>),
            ErrorKey,
        >(ErrorKey::SpecializationExplosion),
        grow(templates, keys, states, limit) is Ok ==> all_within(
            grow(templates, keys, states, limit)->Ok_0.0,
            reach,
        ),
        all_resolve(templates, reach) ==> grow(templates, keys, states, limit) is Ok || grow(
            templates,
            keys,
            states,
            limit,
        ) == Err::<(Seq<InstanceKey>, Seq<Seq<BranchView>>), ErrorKey>(
            ErrorKey::SpecializationExplosion,
        ),
    decreases limit - states.len(),
{
    if states.len() < keys.len() {
        let me = states.len() as int;
        let key = keys[me];
        assert(reach.contains(key));
        lemma_plans_fault(templates, key);
        if plans_for(templates, key) is Ok {
            let plans = plans_for(templates, key)->Ok_0;
            assert forall|j: int| 0 <= j < plans.len() && (#[trigger] plans[j]).next is Goto implies reach.contains(
                plans[j].next->Goto_0,
            ) by {
                assert(reach.contains(key) && plans_for(templates, key)->Ok_0[j].next is Goto);
            }
            lemma_link_within(templates, plans, keys, me, limit, reach);
            if link(templates, plans, keys, me, limit) is Ok {
                lemma_link_extends(templates, plans, keys, me, limit);
                let (branches, middle) = link(templates, plans, keys, me, limit)->Ok_0;
                lemma_grow_within(templates, middle, states.push(branches), limit, reach);
            }
        }
    }
}

/// Pairwise unlike instances of a finite set are no more than the set holds.
pub proof fn lemma_count_within(keys: Seq<InstanceKey>, reach: Set<InstanceKey>)
    requires
        distinct(keys),
        all_within(keys, reach),
        reach.finite(),
    ensures
        keys.len() <= reach.len(),
{
    lemma_distinct_has_no_duplicates(keys);
    keys.unique_seq_to_set();
    assert(keys.to_set().subset_of(reach)) by {
        assert forall|k: InstanceKey| keys.to_set().contains(k) implies reach.contains(k) by {
            let i = choose|i: int| 0 <= i < keys.len() && keys[i] == k;
            assert(reach.contains(keys[i]));
        }
    }
    vstd::set_lib::lemma_len_subset(keys.to_set(), reach);
}

/// A request made within `reach` stays within `reach`: if `reach` holds the
/// requested instance and every known one, and every instance called from
/// within `reach` is in `reach`, then after a request that succeeds every
/// known instance is in `reach`; and if every instance of `reach` fits a
/// template and resolves, the request succeeds or ends in
/// `SpecializationExplosion`, in no other fault.
pub proof fn lemma_only_the_ceiling_fails(
    templates: Seq<StateDef>,
    limit: int,
    before: Progress,
    key: InstanceKey,
    reach: Set<InstanceKey>,
)
    requires
        settled(before, limit),
        limit <= usize::MAX,
        reach.contains(key),
        all_within(before.keys, reach),
        calls_stay_within(templates, reach),
    ensures
        fits_under(reach, limit) ==> specialized(templates, limit, before, key).1 != Err::<
            int,
            ErrorKey,
        >(ErrorKey::SpecializationExplosion),
        specialized(templates, limit, before, key).1 is Ok ==> all_within(
            specialized(templates, limit, before, key).0.keys,
            reach,
        ),
        all_resolve(templates, reach) ==> specialized(templates, limit, before, key).1 is Ok
            || specialized(templates, limit, before, key).1 == Err::<int, ErrorKey>(
            ErrorKey::SpecializationExplosion,
        ),
{
    lemma_enroll_within(templates, before.keys, key, limit, reach);
    if enroll(templates, before.keys, key, limit) is Ok {
        lemma_enroll_extends(templates, before.keys, key, limit);
        let (known, index) = enroll(templates, before.keys, key, limit)->Ok_0;
        lemma_grow_within(templates, known, before.states, limit, reach);
    }
}

/// Where the instances that can be reached fit under the ceiling, the
/// ceiling is never the fault: if `reach` is a finite set of at most `limit`
/// instances that holds the requested instance and every known one, and
/// every instance called from within `reach` is in `reach`, then the request
/// does not end in `SpecializationExplosion`. If besides every instance of
/// `reach` fits a template and resolves, the request succeeds. After a
/// request that succeeds the machine has no more states than `reach` has
/// instances.
pub proof fn lemma_bounded_reach_never_explodes(
    templates: Seq<StateDef>,
    limit: int,
    before: Progress,
    key: InstanceKey,
    reach: Set<InstanceKey>,
)
    requires
        settled(before, limit),
        limit <= usize::MAX,
        fits_under(reach, limit),
        reach.contains(key),
        all_within(before.keys, reach),
        calls_stay_within(templates, reach),
    ensures
        specialized(templates, limit, before, key).1 != Err::<int, ErrorKey>(
            ErrorKey::SpecializationExplosion,
        ),
        all_resolve(templates, reach) ==> specialized(templates, limit, before, key).1 is Ok,
        specialized(templates, limit, before, key).1 is Ok ==> specialized(
            templates,
            limit,
            before,
            key,
        ).0.states.len() <= reach.len(),
{
    lemma_only_the_ceiling_fails(templates, limit, before, key, reach);
    lemma_specialize_appends(templates, limit, before, key);
    if specialized(templates, limit, before, key).1 is Ok {
        lemma_count_within(specialized(templates, limit, before, key).0.keys, reach);
    }
}

/// After a request that succeeds the known instances are self-contained:
/// whatever one of them calls has its like among them.
pub proof fn lemma_success_is_self_contained(
    templates: Seq<StateDef>,
    limit: int,
    before: Progress,
    key: InstanceKey,
)
    requires
        settled(before, limit),
        limit <= usize::MAX,
        faithful(templates, before),
    ensures
        self_contained(templates, specialized(templates, limit, before, key).0.keys),
{
    lemma_specialize_is_faithful(templates, limit, before, key);
    lemma_specialize_appends(templates, limit, before, key);
    let after = specialized(templates, limit, before, key).0;
    assert forall|i: int, j: int|
        0 <= i < after.keys.len() && plans_for(templates, after.keys[i]) is Ok && 0 <= j
            < plans_for(templates, after.keys[i])->Ok_0.len() && (#[trigger] plans_for(
            templates,
            after.keys[i],
        )->Ok_0[j]).next is Goto implies index_of(
        after.keys,
        plans_for(templates, after.keys[i])->Ok_0[j].next->Goto_0,
        0,
    ) is Some by {
        assert(state_matches(templates, after.keys, i, after.states[i]));
        assert(linked_branch(plans_for(templates, after.keys[i])->Ok_0[j], after.keys, i)
            == Some(after.states[i][j]));
    }
}

/// A family that outgrows the ceiling ends in `SpecializationExplosion`: if
/// every instance that can be reached fits a template and resolves, and no
/// list of at most `limit` instances holds a like of the requested instance
/// and is self-contained, then the request ends in that fault, and the
/// progress is as it was.
pub proof fn lemma_runaway_explodes(
    templates: Seq<StateDef>,
    limit: int,
    before: Progress,
    key: InstanceKey,
    reach: Set<InstanceKey>,
)
    requires
        settled(before, limit),
        limit <= usize::MAX,
        faithful(templates, before),
        reach.contains(key),
        all_within(before.keys, reach),
        calls_stay_within(templates, reach),
        all_resolve(templates, reach),
        forall|family: Seq<InstanceKey>|
            family.len() <= limit && index_of(family, key, 0) is Some ==> !#[trigger] self_contained(
                templates,
                family,
            ),
    ensures
        specialized(templates, limit, before, key) == (
            before,
            Err::<int, ErrorKey>(ErrorKey::SpecializationExplosion),
        ),
{
    lemma_only_the_ceiling_fails(templates, limit, before, key, reach);
    lemma_specialize_appends(templates, limit, before, key);
    lemma_success_is_self_contained(templates, limit, before, key);
}

/// A request never leaves more states than the ceiling allows, whatever the
/// templates.
pub proof fn lemma_machine_stays_finite(
    templates: Seq<StateDef>,
    limit: int,
    before: Progress,
    key: InstanceKey,
)
    requires
        settled(before, limit),
        limit <= usize::MAX,
    ensures
        settled(specialized(templates, limit, before, key).0, limit),
        specialized(templates, limit, before, key).0.states.len() <= limit,
{
    if specialized(templates, limit, before, key).1 is Ok {
        lemma_specialize_appends(templates, limit, before, key);
    }
}

/// A branch that is linked stays the same when more instances are known.
proof fn lemma_linked_branch_extends(
    plan: Plan,
    keys: Seq<InstanceKey>,
    longer: Seq<InstanceKey>,
    me: int,
)
    requires
        keys.is_prefix_of(longer),
        linked_branch(plan, keys, me) is Some,
    ensures
        linked_branch(plan, longer, me) == linked_branch(plan, keys, me),
{
    match plan.next {
        Continuation::Goto(key) => {
            lemma_index_of_extends(keys, longer, key, 0);
        },
        _ => {},
    }
}

/// A state that matches its template still does when more instances are
/// known.
proof fn lemma_state_matches_extends(
    templates: Seq<StateDef>,
    keys: Seq<InstanceKey>,
    longer: Seq<InstanceKey>,
    me: int,
    state: Seq<BranchView>,
)
    requires
        0 <= me < keys.len(),
        keys.is_prefix_of(longer),
        state_matches(templates, keys, me, state),
    ensures
        state_matches(templates, longer, me, state),
{
    assert(longer[me] == keys[me]);
    let plans = plans_for(templates, keys[me])->Ok_0;
    assert forall|j: int| 0 <= j < state.len() implies linked_branch(plans[j], longer, me)
        == Some(#[trigger] state[j]) by {
        assert(linked_branch(plans[j], keys, me) == Some(state[j]));
        lemma_linked_branch_extends(plans[j], keys, longer, me);
    }
}

/// Linking gives, plan for plan, the branch that the plan stands for.
proof fn lemma_link_matches(
    templates: Seq<StateDef>,
    plans: Seq<Plan>,
    keys: Seq<InstanceKey>,
    me: int,
    limit: int,
)
    requires
        0 <= me < keys.len() <= limit <= usize::MAX,
        link(templates, plans, keys, me, limit) is Ok,
    ensures
        ({
            let (branches, known) = link(templates, plans, keys, me, limit)->Ok_0;
            &&& branches.len() == plans.len()
            &&& forall|j: int|
                0 <= j < plans.len() ==> linked_branch(plans[j], known, me) == Some(
                    #[trigger] branches[j],
                )
        }),
    decreases plans.len(),
{
    if plans.len() > 0 {
        let front = plans.drop_last();
        lemma_link_matches(templates, front, keys, me, limit);
        lemma_link_extends(templates, front, keys, me, limit);
        let (early, middle) = link(templates, front, keys, me, limit)->Ok_0;
        let (branches, known) = link(templates, plans, keys, me, limit)->Ok_0;
        match plans.last().next {
            Continuation::Goto(key) => {
                lemma_enroll_extends(templates, middle, key, limit);
            },
            _ => {},
        }
        assert(middle.is_prefix_of(known));
        assert forall|j: int| 0 <= j < plans.len() implies linked_branch(plans[j], known, me)
            == Some(#[trigger] branches[j]) by {
            if j < front.len() {
                assert(front[j] == plans[j]);
                assert(branches[j] == early[j]);
                lemma_linked_branch_extends(plans[j], middle, known, me);
            }
        }
    }
}

/// Growing keeps every state as its template says.
proof fn lemma_grow_faithful(
    templates: Seq<StateDef>,
    keys: Seq<InstanceKey>,
    states: Seq<Seq<BranchView>>,
    limit: int,
)
    requires
        states.len() <= keys.len() <= limit <= usize::MAX,
        faithful(templates, Progress { keys, states }),
        grow(templates, keys, states, limit) is Ok,
    ensures
        ({
            let (known, built) = grow(templates, keys, states, limit)->Ok_0;
            faithful(templates, Progress { keys: known, states: built })
        }),
    decreases limit - states.len(),
{
    if states.len() < keys.len() {
        let me = states.len() as int;
        let plans = plans_for(templates, keys[me])->Ok_0;
        lemma_link_extends(templates, plans, keys, me, limit);
        lemma_link_matches(templates, plans, keys, me, limit);
        let (branches, middle) = build(templates, keys, me, limit)->Ok_0;
        let next = states.push(branches);
        assert(middle[me] == keys[me]);
        assert forall|i: int| 0 <= i < next.len() implies state_matches(
            templates,
            middle,
            i,
            #[trigger] next[i],
        ) by {
            if i < states.len() {
                let so_far = Progress { keys, states };
                assert(next[i] == states[i]);
                assert(state_matches(templates, so_far.keys, i, so_far.states[i]));
                lemma_state_matches_extends(templates, keys, middle, i, states[i]);
            }
        }
        lemma_grow_faithful(templates, middle, next, limit);
    }
}

/// A request leaves every state, old and new, as the template of its
/// instance says: the symbols and primitives of each branch are those of
/// the branch resolved with the instance's arguments, `Accept` and `Reject`
/// stay, a chain of primitives alone leads back to the state itself, and a
/// call leads to the state whose instance is the template called with the
/// resolved arguments.
pub proof fn lemma_specialize_is_faithful(
    templates: Seq<StateDef>,
    limit: int,
    before: Progress,
    key: InstanceKey,
)
    requires
        settled(before, limit),
        limit <= usize::MAX,
        faithful(templates, before),
    ensures
        faithful(templates, specialized(templates, limit, before, key).0),
{
    if specialized(templates, limit, before, key).1 is Ok {
        lemma_enroll_extends(templates, before.keys, key, limit);
        let (known, index) = enroll(templates, before.keys, key, limit)->Ok_0;
        assert forall|i: int| 0 <= i < before.states.len() implies state_matches(
            templates,
            known,
            i,
            #[trigger] before.states[i],
        ) by {
            lemma_state_matches_extends(templates, before.keys, known, i, before.states[i]);
        }
        lemma_grow_faithful(templates, known, before.states, limit);
    }
}

} // verus!
