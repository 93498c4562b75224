//! What can go wrong while templates are turned into a machine.

use vstd::prelude::*;

verus! {

/// The first fault met while resolving or specialising templates. Each
/// variant but the last carries the name it is about.
#[derive(Debug, Clone, PartialEq, Eq)]
pub enum CompileError {
    /// A selector names a parameter that is unbound, or bound to something
    /// that does not stand for exactly one symbol.
    UnboundOrIllTypedParameter(String),
    /// A print names a parameter that is not bound to a symbol.
    TypeMismatch(String),
    /// A template is called with arguments that do not fit its parameters:
    /// neither one for each, nor one for each and a chain to go on with.
    ArityMismatch(String),
    /// A call names a template that is not defined.
    UnknownState(String),
    /// More distinct instantiations are needed than the ceiling allows.
    SpecializationExplosion,
}

/// A fault, with names as character sequences.
pub enum ErrorKey {
    UnboundOrIllTypedParameter(Seq<char>),
    TypeMismatch(Seq<char>),
    ArityMismatch(Seq<char>),
    UnknownState(Seq<char>),
    SpecializationExplosion,
}

impl View for CompileError {
    type V = ErrorKey;

    open spec fn view(&self) -> ErrorKey {
        match self {
            CompileError::UnboundOrIllTypedParameter(name) => ErrorKey::UnboundOrIllTypedParameter(
                name@,
            ),
            CompileError::TypeMismatch(name) => ErrorKey::TypeMismatch(name@),
            CompileError::ArityMismatch(name) => ErrorKey::ArityMismatch(name@),
            CompileError::UnknownState(name) => ErrorKey::UnknownState(name@),
            CompileError::SpecializationExplosion => ErrorKey::SpecializationExplosion,
        }
    }
}

/// The items of a sequence of outcomes, or the first fault among them.
pub open spec fn collect<T, E>(outcomes: Seq<Result<T, E>>) -> Result<Seq<T>, E>
    decreases outcomes.len(),
{
    if outcomes.len() == 0 {
        Ok(Seq::empty())
    } else {
        match collect(outcomes.drop_last()) {
            Err(e) => Err(e),
            Ok(items) => match outcomes.last() {
                Err(e) => Err(e),
                Ok(item) => Ok(items.push(item)),
            },
        }
    }
}

/// One more success extends what was collected.
pub proof fn lemma_collect_step<T, E>(outcomes: Seq<Result<T, E>>, k: int)
    requires
        0 <= k < outcomes.len(),
        collect(outcomes.take(k)) is Ok,
    ensures
        collect(outcomes.take(k + 1)) == match outcomes[k] {
            Ok(item) => Ok::<Seq<T>, E>(collect(outcomes.take(k))->Ok_0.push(item)),
            Err(e) => Err::<Seq<T>, E>(e),
        },
{
    assert(outcomes.take(k + 1).drop_last() =~= outcomes.take(k));
    assert(outcomes.take(k + 1).last() == outcomes[k]);
}

/// A fault among the first outcomes is the fault of the whole.
pub proof fn lemma_collect_fault<T, E>(outcomes: Seq<Result<T, E>>, k: int)
    requires
        0 <= k <= outcomes.len(),
        collect(outcomes.take(k)) is Err,
    ensures
        collect(outcomes) == collect(outcomes.take(k)),
    decreases outcomes.len() - k,
{
    if k == outcomes.len() {
        assert(outcomes.take(k) =~= outcomes);
    } else {
        assert(outcomes.take(k + 1).drop_last() =~= outcomes.take(k));
        lemma_collect_fault(outcomes, k + 1);
    }
}

/// Collecting succeeds exactly when every outcome does, and then keeps the
/// items one for one.
pub proof fn lemma_collect_items<T, E>(outcomes: Seq<Result<T, E>>)
    ensures
        collect(outcomes) is Ok <==> (forall|i: int|
            0 <= i < outcomes.len() ==> (#[trigger] outcomes[i]) is Ok),
        collect(outcomes) is Ok ==> collect(outcomes)->Ok_0.len() == outcomes.len(),
        collect(outcomes) is Ok ==> (forall|i: int|
            0 <= i < outcomes.len() ==> (#[trigger] outcomes[i]) == Ok::<T, E>(
                collect(outcomes)->Ok_0[i],
            )),
    decreases outcomes.len(),
{
    if outcomes.len() > 0 {
        lemma_collect_items(outcomes.drop_last());
        let front = outcomes.drop_last();
        if collect(outcomes) is Ok {
            assert forall|i: int| 0 <= i < outcomes.len() implies (#[trigger] outcomes[i]) is Ok
                && outcomes[i] == Ok::<T, E>(collect(outcomes)->Ok_0[i]) by {
                if i < front.len() {
                    assert(front[i] == outcomes[i]);
                }
            }
        }
        if forall|i: int| 0 <= i < outcomes.len() ==> (#[trigger] outcomes[i]) is Ok {
            assert forall|i: int| 0 <= i < front.len() implies (#[trigger] front[i]) is Ok by {
                assert(front[i] == outcomes[i]);
            }
            assert(outcomes.last() == outcomes[outcomes.len() - 1]);
        }
    }
}

/// Where collecting fails, the fault is that of the first outcome that is
/// one.
pub proof fn lemma_collect_first_fault<T, E>(outcomes: Seq<Result<T, E>>) -> (at: int)
    requires
        collect(outcomes) is Err,
    ensures
        0 <= at < outcomes.len(),
        outcomes[at] is Err,
        outcomes[at]->Err_0 == collect(outcomes)->Err_0,
        forall|i: int| 0 <= i < at ==> (#[trigger] outcomes[i]) is Ok,
    decreases outcomes.len(),
{
    let front = outcomes.drop_last();
    if collect(front) is Err {
        let at = lemma_collect_first_fault(front);
        assert(front[at] == outcomes[at]);
        assert forall|i: int| 0 <= i < at implies (#[trigger] outcomes[i]) is Ok by {
            assert(front[i] == outcomes[i]);
        }
        at
    } else {
        lemma_collect_items(front);
        assert forall|i: int| 0 <= i < front.len() implies (#[trigger] outcomes[i]) is Ok by {
            assert(front[i] == outcomes[i]);
        }
        outcomes.len() - 1
    }
}

} // verus!
