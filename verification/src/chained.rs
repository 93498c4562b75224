//! The chained form of a chain: calls without trailing chain arguments,
//! each followed by what those chains held.

use crate::resolved::{
    args_key, parts_key, ArgKey, PartKey, ResolvedCallArg, ResolvedChain, ResolvedChainElem,
};
use vstd::prelude::*;

verus! {

/// Whether a call still carries a chain as its last argument.
pub open spec fn ends_in_chain(args: Seq<ArgKey>) -> bool {
    args.len() > 0 && args.last() is Chain
}

/// The chained form of a sequence of chain elements: every call gives up its
/// trailing chain arguments, whose own chained forms follow the call in the
/// order in which they were written.
pub open spec fn flatten(parts: Seq<PartKey>) -> Seq<PartKey>
    decreases parts,
{
    if parts.len() == 0 {
        Seq::empty()
    } else {
        flatten(parts.drop_last()) + flatten_part(parts.last())
    }
}

/// The chained form of one element: a call gives up its trailing chains,
/// anything else stays.
pub open spec fn flatten_part(part: PartKey) -> Seq<PartKey>
    decreases part,
{
    match part {
        PartKey::Call { id, args } => flatten_call(id, args),
        _ => seq![part],
    }
}

/// The chained form of a call: the call without its trailing chain
/// arguments, followed by their chained forms in the order written.
pub open spec fn flatten_call(id: Seq<char>, args: Seq<ArgKey>) -> Seq<PartKey>
    decreases args,
{
    if ends_in_chain(args) {
        flatten_call(id, args.drop_last()) + flatten(args.last()->Chain_0)
    } else {
        seq![PartKey::Call { id, args }]
    }
}

/// A sequence is in chained form when none of its calls ends in a chain.
pub open spec fn is_flat(parts: Seq<PartKey>) -> bool {
    forall|i: int|
        0 <= i < parts.len() ==> match #[trigger] parts[i] {
            PartKey::Call { id, args } => !ends_in_chain(args),
            _ => true,
        }
}

/// `head` continued by `tail`, both brought into chained form.
pub open spec fn splice(head: Seq<PartKey>, tail: Seq<PartKey>) -> Seq<PartKey> {
    flatten(head) + flatten(tail)
}

/// Flattening goes through concatenation.
pub proof fn lemma_flatten_concat(a: Seq<PartKey>, b: Seq<PartKey>)
    ensures
        flatten(a + b) == flatten(a) + flatten(b),
    decreases b.len(),
{
    if b.len() == 0 {
        assert(a + b =~= a);
        assert(flatten(a) + flatten(b) =~= flatten(a));
    } else {
        lemma_flatten_concat(a, b.drop_last());
        assert((a + b).drop_last() =~= a + b.drop_last());
        assert((a + b).last() == b.last());
        assert(flatten(a + b) =~= flatten(a) + flatten(b));
    }
}

/// The chained form is in chained form.
pub proof fn lemma_flatten_is_flat(parts: Seq<PartKey>)
    ensures
        is_flat(flatten(parts)),
    decreases parts,
{
    if parts.len() > 0 {
        lemma_flatten_is_flat(parts.drop_last());
        lemma_flatten_part_is_flat(parts.last());
    }
}

/// The chained form of one element is in chained form.
proof fn lemma_flatten_part_is_flat(part: PartKey)
    ensures
        is_flat(flatten_part(part)),
    decreases part,
{
    match part {
        PartKey::Call { id, args } => lemma_flatten_call_is_flat(id, args),
        _ => {},
    }
}

/// The chained form of a call is in chained form.
proof fn lemma_flatten_call_is_flat(id: Seq<char>, args: Seq<ArgKey>)
    ensures
        is_flat(flatten_call(id, args)),
    decreases args,
{
    if ends_in_chain(args) {
        lemma_flatten_call_is_flat(id, args.drop_last());
        lemma_flatten_is_flat(args.last()->Chain_0);
    }
}

/// Flattening leaves a sequence in chained form as it is.
pub proof fn lemma_flatten_of_flat(parts: Seq<PartKey>)
    requires
        is_flat(parts),
    ensures
        flatten(parts) == parts,
    decreases parts.len(),
{
    if parts.len() > 0 {
        let front = parts.drop_last();
        assert forall|i: int| 0 <= i < front.len() implies match #[trigger] front[i] {
            PartKey::Call { id, args } => !ends_in_chain(args),
            _ => true,
        } by {
            assert(front[i] == parts[i]);
        }
        lemma_flatten_of_flat(front);
        assert(flatten_part(parts.last()) == seq![parts.last()]);
        assert(flatten(parts) =~= parts);
    }
}

/// Flattening twice is flattening once.
pub proof fn lemma_flatten_idempotent(parts: Seq<PartKey>)
    ensures
        flatten(flatten(parts)) == flatten(parts),
{
    lemma_flatten_is_flat(parts);
    lemma_flatten_of_flat(flatten(parts));
}

/// Splicing is associative.
pub proof fn lemma_splice_associative(a: Seq<PartKey>, b: Seq<PartKey>, c: Seq<PartKey>)
    ensures
        splice(splice(a, b), c) == splice(a, splice(b, c)),
{
    lemma_flatten_concat(flatten(a), flatten(b));
    lemma_flatten_concat(flatten(b), flatten(c));
    lemma_flatten_idempotent(a);
    lemma_flatten_idempotent(b);
    lemma_flatten_idempotent(c);
    assert((flatten(a) + flatten(b)) + flatten(c) =~= flatten(a) + (flatten(b) + flatten(c)));
}

/// The model of a list with one more element.
proof fn lemma_parts_key_push(parts: Seq<ResolvedChainElem>, part: ResolvedChainElem)
    ensures
        parts_key(parts.push(part)) == parts_key(parts).push(part@),
{
    assert(parts_key(parts.push(part)) =~= parts_key(parts).push(part@));
}

/// The model of two lists joined.
proof fn lemma_parts_key_concat(a: Seq<ResolvedChainElem>, b: Seq<ResolvedChainElem>)
    ensures
        parts_key(a + b) == parts_key(a) + parts_key(b),
{
    assert(parts_key(a + b) =~= parts_key(a) + parts_key(b));
}

impl ResolvedChain {
    /// Brings the chain into chained form: no call is left with a chain as
    /// its last argument.
    pub fn into_chained_repr(self) -> (flat: Self)
        ensures
            flat@ == flatten(self@),
            is_flat(flat@),
    {
        proof {
            lemma_flatten_is_flat(self@);
        }
        self.chained()
    }

    /// The chained form, built beside the chain.
    pub fn chained(&self) -> (flat: Self)
        ensures
            flat@ == flatten(self@),
        decreases self,
    {
        let mut out: Vec<ResolvedChainElem> = Vec::new();
        let mut i: usize = 0;
        assert(self@.take(0) =~= Seq::<PartKey>::empty());
        while i < self.parts.len()
            invariant
                i <= self.parts.len(),
                parts_key(out@) == flatten(self@.take(i as int)),
            decreases self.parts.len() - i,
        {
            let ghost done = flatten(self@.take(i as int));
            proof {
                assert(self@.take(i + 1).drop_last() =~= self@.take(i as int));
                assert(self@.take(i + 1).last() == self.parts@[i as int]@);
            }
            match &self.parts[i] {
                ResolvedChainElem::Call { id, args } => {
                    let ghost keys = args_key(args@);
                    assert(self.parts@[i as int]->Call_args == *args);
                    let mut kept: usize = args.len();
                    while kept > 0 && args[kept - 1].is_chain()
                        invariant
                            kept <= args.len(),
                            keys == args_key(args@),
                            forall|k: int| kept <= k < args.len() ==> #[trigger] keys[k] is Chain,
                        decreases kept,
                    {
                        kept -= 1;
                    }
                    let mut head: Vec<ResolvedCallArg> = Vec::new();
                    let mut j: usize = 0;
                    while j < kept
                        invariant
                            j <= kept <= args.len(),
                            head@.len() == j,
                            forall|k: int| 0 <= k < j ==> (#[trigger] head@[k])@ == args@[k]@,
                        decreases kept - j,
                    {
                        head.push(args[j].clone());
                        j += 1;
                    }
                    proof {
                        assert(args_key(head@) =~= keys.take(kept as int));
                        assert(!ends_in_chain(keys.take(kept as int)));
                        lemma_parts_key_push(
                            out@,
                            ResolvedChainElem::Call { id: *id, args: head },
                        );
                    }
                    out.push(ResolvedChainElem::Call { id: id.clone(), args: head });
                    assert(parts_key(out@) =~= done + flatten_call(id@, keys.take(kept as int)));
                    let mut j: usize = kept;
                    while j < args.len()
                        invariant
                            kept <= j <= args.len(),
                            keys == args_key(args@),
                            self.parts@[i as int] is Call,
                            self.parts@[i as int]->Call_args == *args,
                            i < self.parts.len(),
                            forall|k: int| kept <= k < args.len() ==> #[trigger] keys[k] is Chain,
                            parts_key(out@) == done + flatten_call(id@, keys.take(j as int)),
                        decreases args.len() - j,
                    {
                        proof {
                            assert(keys[j as int] is Chain);
                            assert(keys.take(j + 1).drop_last() =~= keys.take(j as int));
                            assert(keys.take(j + 1).last() == keys[j as int]);
                            assert(ends_in_chain(keys.take(j + 1)));
                        }
                        match &args[j] {
                            ResolvedCallArg::Chain(chain) => {
                                assert(args@[j as int]->Chain_0 == *chain);
                                let mut tail = chain.chained();
                                proof {
                                    lemma_parts_key_concat(out@, tail.parts@);
                                }
                                out.append(&mut tail.parts);
                                assert(parts_key(out@) =~= done + flatten_call(
                                    id@,
                                    keys.take(j + 1),
                                ));
                            },
                            _ => {
                                assert(false);
                            },
                        }
                        j += 1;
                    }
                    assert(keys.take(args.len() as int) =~= keys);
                    assert(self.parts@[i as int]@ == PartKey::Call { id: id@, args: keys });
                    assert(parts_key(out@) == done + flatten_part(self.parts@[i as int]@));
                },
                other => {
                    proof {
                        lemma_parts_key_push(out@, *other);
                    }
                    out.push(other.clone());
                    assert(flatten_part(other@) == seq![other@]);
                    assert(parts_key(out@) =~= done + flatten_part(self.parts@[i as int]@));
                },
            }
            i += 1;
        }
        assert(self@.take(i as int) =~= self@);
        ResolvedChain { parts: out }
    }
}

} // verus!
