//! The scope in which a template's body is resolved: parameter names bound
//! to resolved arguments.

use crate::resolved::{ArgKey, ResolvedCallArg};
use vstd::prelude::*;

verus! {

/// The bindings that a list of entries stands for; a later entry hides an
/// earlier one of the same name.
pub open spec fn bindings(entries: Seq<(String, ResolvedCallArg)>) -> Map<Seq<char>, ArgKey>
    decreases entries.len(),
{
    if entries.len() == 0 {
        Map::empty()
    } else {
        bindings(entries.drop_last()).insert(entries.last().0@, entries.last().1@)
    }
}

/// If no entry from `from` on has the name, the entries before `from` decide.
proof fn lemma_bindings_skip(entries: Seq<(String, ResolvedCallArg)>, name: Seq<char>, from: int)
    requires
        0 <= from <= entries.len(),
        forall|j: int| from <= j < entries.len() ==> (#[trigger] entries[j]).0@ != name,
    ensures
        bindings(entries).contains_key(name) == bindings(entries.take(from)).contains_key(name),
        bindings(entries).contains_key(name) ==> bindings(entries)[name] == bindings(
            entries.take(from),
        )[name],
    decreases entries.len() - from,
{
    if from == entries.len() {
        assert(entries.take(from) =~= entries);
    } else {
        let front = entries.drop_last();
        assert(entries.last() == entries[entries.len() - 1]);
        assert forall|j: int| from <= j < front.len() implies (#[trigger] front[j]).0@ != name by {
            assert(front[j] == entries[j]);
        }
        lemma_bindings_skip(front, name, from);
        assert(front.take(from) =~= entries.take(from));
    }
}

/// Names bound to resolved arguments, in the order in which they were
/// bound.
#[derive(Debug)]
pub struct Environment {
    pub entries: Vec<(String, ResolvedCallArg)>,
}

impl View for Environment {
    type V = Map<Seq<char>, ArgKey>;

    open spec fn view(&self) -> Map<Seq<char>, ArgKey> {
        bindings(self.entries@)
    }
}

impl Environment {
    /// An environment that binds nothing.
    pub fn new() -> (env: Self)
        ensures
            env@ == Map::<Seq<char>, ArgKey>::empty(),
    {
        Environment { entries: Vec::new() }
    }

    /// Binds `name` to `value`, hiding any earlier binding of the name.
    pub fn bind(&mut self, name: String, value: ResolvedCallArg)
        ensures
            final(self)@ == old(self)@.insert(name@, value@),
    {
        self.entries.push((name, value));
        assert(self.entries@.drop_last() =~= old(self).entries@);
    }

    /// The argument bound to `name`, if there is one.
    pub fn lookup(&self, name: &String) -> (found: Option<&ResolvedCallArg>)
        ensures
            found is Some <==> self@.contains_key(name@),
            found is Some ==> found->Some_0@ == self@[name@],
    {
        let mut k: usize = self.entries.len();
        while k > 0
            invariant
                k <= self.entries.len(),
                forall|j: int| k <= j < self.entries.len() ==> (#[trigger] self.entries@[j]).0@ != name@,
            decreases k,
        {
            k -= 1;
            if self.entries[k].0.eq(name) {
                proof {
                    lemma_bindings_skip(self.entries@, name@, k + 1);
                    assert(self.entries@.take(k + 1).drop_last() =~= self.entries@.take(k as int));
                    assert(self.entries@.take(k + 1).last() == self.entries@[k as int]);
                }
                return Some(&self.entries[k].1);
            }
        }
        proof {
            lemma_bindings_skip(self.entries@, name@, 0);
            assert(self.entries@.take(0) =~= Seq::<(String, ResolvedCallArg)>::empty());
        }
        None
    }
}

} // verus!
