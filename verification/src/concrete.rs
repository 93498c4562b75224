//! The flat automaton: states addressed by index, each an ordered list of
//! guarded branches.

use vstd::prelude::*;

verus! {

/// One tape action.
#[derive(Debug, Clone, Copy, PartialEq, Eq, Structural)]
pub enum Primitive {
    Movel,
    Mover,
    Print(u8),
}

/// The guard of a branch: every symbol, or the symbols listed.
#[derive(Debug, Clone, PartialEq, Eq)]
pub enum Selector {
    All,
    Chars(Vec<u8>),
}

impl Selector {
    /// Whether the selector admits the symbol `c`.
    pub open spec fn admits(&self, c: u8) -> bool {
        match self {
            Selector::All => true,
            Selector::Chars(v) => v@.contains(c),
        }
    }

    /// Tests whether the selector admits the symbol `c`.
    pub fn matches(&self, c: u8) -> (found: bool)
        ensures
            found == self.admits(c),
    {
        match self {
            Selector::All => true,
            Selector::Chars(v) => {
                let mut i: usize = 0;
                while i < v.len()
                    invariant
                        i <= v.len(),
                        self.admits(c) == v@.contains(c),
                        forall|j: int| 0 <= j < i ==> v@[j] != c,
                    decreases v.len() - i,
                {
                    if v[i] == c {
                        assert(v@[i as int] == c);
                        return true;
                    }
                    i += 1;
                }
                false
            },
        }
    }
}

impl View for Selector {
    type V = Set<u8>;

    /// The set of symbols that the selector admits.
    open spec fn view(&self) -> Set<u8> {
        Set::new(|c: u8| self.admits(c))
    }
}

/// The symbols that a list stands for; no list stands for every symbol.
pub open spec fn symbols_of(chars: Option<Seq<u8>>) -> Set<u8> {
    match chars {
        None => Set::full(),
        Some(list) => Set::new(|c: u8| list.contains(c)),
    }
}

impl Selector {
    /// The symbols as listed, or nothing for `All`.
    pub open spec fn chars(&self) -> Option<Seq<u8>> {
        match self {
            Selector::All => None,
            Selector::Chars(v) => Some(v@),
        }
    }

    /// A selector admits the symbols that its list stands for.
    pub proof fn lemma_view_is_symbols_of_chars(&self)
        ensures
            self@ == symbols_of(self.chars()),
    {
        assert(self@ =~= symbols_of(self.chars()));
    }
}

/// Each symbol of the list is smaller than the next.
pub open spec fn rising(list: Seq<u8>) -> bool {
    forall|i: int, j: int| 0 <= i < j < list.len() ==> list[i] < list[j]
}

impl Selector {
    /// A selector is tidy when it is written in the one way in which its
    /// symbols can be: `All` for every symbol, else a rising list.
    pub open spec fn tidy(&self) -> bool {
        match self {
            Selector::All => true,
            Selector::Chars(v) => rising(v@) && self@ != Set::<u8>::full(),
        }
    }
}

/// Two rising lists of the same symbols are the same list.
pub proof fn lemma_rising_lists_agree(a: Seq<u8>, b: Seq<u8>)
    requires
        rising(a),
        rising(b),
        forall|c: u8| a.contains(c) <==> b.contains(c),
    ensures
        a == b,
    decreases a.len(),
{
    if a.len() == 0 {
        if b.len() > 0 {
            assert(b.contains(b[0]));
        }
        assert(a =~= b);
    } else {
        let top = a.last();
        assert(a.contains(top));
        let at = choose|k: int| 0 <= k < b.len() && b[k] == top;
        if at < b.len() - 1 {
            assert(b.contains(b.last()));
            let back = choose|k: int| 0 <= k < a.len() && a[k] == b.last();
            assert(false);
        }
        let front_a = a.drop_last();
        let front_b = b.drop_last();
        assert forall|c: u8| front_a.contains(c) <==> front_b.contains(c) by {
            if front_a.contains(c) {
                let k = choose|k: int| 0 <= k < front_a.len() && front_a[k] == c;
                assert(a[k] == c && c < top);
                assert(a.contains(c));
                let m = choose|m: int| 0 <= m < b.len() && b[m] == c;
                assert(front_b[m] == c);
            }
            if front_b.contains(c) {
                let k = choose|k: int| 0 <= k < front_b.len() && front_b[k] == c;
                assert(b[k] == c && c < top);
                assert(b.contains(c));
                let m = choose|m: int| 0 <= m < a.len() && a[m] == c;
                assert(front_a[m] == c);
            }
        }
        lemma_rising_lists_agree(front_a, front_b);
        assert(a =~= front_a.push(top));
        assert(b =~= front_b.push(top));
    }
}

/// Tidy selectors that admit the same symbols are written the same.
pub proof fn lemma_tidy_is_unique(a: Selector, b: Selector)
    requires
        a.tidy(),
        b.tidy(),
        a@ == b@,
    ensures
        a.chars() == b.chars(),
{
    match (a, b) {
        (Selector::Chars(v), Selector::Chars(w)) => {
            assert forall|c: u8| v@.contains(c) <==> w@.contains(c) by {
                assert(a@.contains(c) == b@.contains(c));
                assert(a@.contains(c) == a.admits(c));
                assert(b@.contains(c) == b.admits(c));
                assert(a.admits(c) == v@.contains(c));
                assert(b.admits(c) == w@.contains(c));
            }
            lemma_rising_lists_agree(v@, w@);
        },
        (Selector::All, Selector::Chars(_)) => {
            assert(a@ =~= Set::<u8>::full());
        },
        (Selector::Chars(_), Selector::All) => {
            assert(b@ =~= Set::<u8>::full());
        },
        _ => {},
    }
}

/// What a branch does once its primitives have run.
#[derive(Debug, Clone, Copy, PartialEq, Eq, Structural)]
pub enum Call {
    Accept,
    Reject,
    State(usize),
}

/// One guarded branch of a state.
#[derive(Debug, Clone, PartialEq, Eq)]
pub struct Branch {
    pub sel: Selector,
    pub primitives: Vec<Primitive>,
    pub call: Call,
}

/// A branch as the engine sees it: the admitted symbols, the actions, the
/// continuation.
pub struct BranchView {
    pub symbols: Set<u8>,
    pub primitives: Seq<Primitive>,
    pub call: Call,
}

impl View for Branch {
    type V = BranchView;

    open spec fn view(&self) -> BranchView {
        BranchView { symbols: self.sel@, primitives: self.primitives@, call: self.call }
    }
}

/// A state: its branches, tried in the order listed.
#[derive(Debug, Clone, PartialEq, Eq)]
pub struct State {
    pub branches: Vec<Branch>,
}

/// The view of a list of branches, one for one.
pub open spec fn branches_view(branches: Seq<Branch>) -> Seq<BranchView> {
    Seq::new(branches.len(), |i: int| branches[i]@)
}

impl View for State {
    type V = Seq<BranchView>;

    open spec fn view(&self) -> Seq<BranchView> {
        branches_view(self.branches@)
    }
}

/// A machine: its states, each known by its index.
#[derive(Debug, Clone, PartialEq, Eq)]
pub struct Machine {
    pub states: Vec<State>,
}

/// The view of a list of states, one for one.
pub open spec fn states_view(states: Seq<State>) -> Seq<Seq<BranchView>> {
    Seq::new(states.len(), |i: int| states[i]@)
}

impl View for Machine {
    type V = Seq<Seq<BranchView>>;

    open spec fn view(&self) -> Seq<Seq<BranchView>> {
        states_view(self.states@)
    }
}

/// Every selector of the states is tidy.
pub open spec fn tidy_states(states: Seq<State>) -> bool {
    forall|i: int, j: int|
        0 <= i < states.len() && 0 <= j < states[i].branches@.len() ==> (
        #[trigger] states[i].branches@[j]).sel.tidy()
}

/// Every continuation of `states` names a state below `bound`.
pub open spec fn targets_below(states: Seq<Seq<BranchView>>, bound: int) -> bool {
    forall|i: int, j: int|
        0 <= i < states.len() && 0 <= j < states[i].len() ==> match #[trigger] states[i][j].call {
            Call::State(k) => k < bound,
            _ => true,
        }
}

/// A machine is closed when every continuation names one of its own states.
pub open spec fn closed(states: Seq<Seq<BranchView>>) -> bool {
    targets_below(states, states.len() as int)
}

impl Machine {
    /// Tests whether every continuation names a state of the machine.
    pub fn is_closed(&self) -> (yes: bool)
        ensures
            yes == closed(self@),
    {
        let count = self.states.len();
        let mut i: usize = 0;
        while i < count
            invariant
                i <= count,
                count == self.states@.len(),
                targets_below(self@.take(i as int), count as int),
            decreases count - i,
        {
            let state = &self.states[i];
            let mut j: usize = 0;
            while j < state.branches.len()
                invariant
                    j <= state.branches.len(),
                    i < count,
                    count == self.states@.len(),
                    *state == self.states@[i as int],
                    targets_below(self@.take(i as int), count as int),
                    forall|k: int|
                        0 <= k < j ==> match (#[trigger] self@[i as int][k]).call {
                            Call::State(target) => target < count,
                            _ => true,
                        },
                decreases state.branches.len() - j,
            {
                match state.branches[j].call {
                    Call::State(target) => {
                        if target >= count {
                            assert(self@[i as int][j as int].call == Call::State(target));
                            return false;
                        }
                    },
                    _ => {},
                }
                j += 1;
            }
            assert forall|a: int, b: int|
                0 <= a < self@.take(i + 1).len() && 0 <= b < self@.take(i + 1)[a].len() implies match #[trigger] self@.take(
                i + 1,
            )[a][b].call {
                Call::State(k) => k < count,
                _ => true,
            } by {
                if a < i {
                    assert(self@.take(i + 1)[a] == self@.take(i as int)[a]);
                    let call = self@.take(i as int)[a][b].call;
                } else {
                    assert(self@.take(i + 1)[a] == self@[i as int]);
                }
            }
            i += 1;
        }
        assert(self@.take(count as int) =~= self@);
        true
    }
}

} // verus!
