//! Reading the flat form: from a parse tree to states whose continuations
//! are names, and from those to a machine whose continuations are indices.

use crate::concrete::{
    branches_view, closed, states_view, symbols_of, Branch, BranchView, Call, Machine, Primitive,
    Selector, State,
};
use crate::error::{collect, lemma_collect_fault, lemma_collect_items, lemma_collect_step};
use crate::tree::{bytes_of, char_of, parse_char, Malformed, Node};
use vstd::prelude::*;
use vstd::string::StringExecFns;

verus! {

/// The rules of the flat form's grammar that its reader tells apart.
#[derive(Debug, Clone, Copy, PartialEq, Eq, Structural)]
pub enum Rule {
    File,
    StateDesc,
    Branch,
    Selector,
    Char,
    Action,
    Id,
    Other,
}

/// A branch whose continuation is still a name, or missing.
#[derive(Debug)]
pub struct RawBranch {
    pub sel: Selector,
    pub primitives: Vec<Primitive>,
    pub call: Option<String>,
}

/// A state as written: its name and its branches.
#[derive(Debug)]
pub struct RawState {
    pub name: String,
    pub branches: Vec<RawBranch>,
}

/// A branch as written: the symbols listed, if any are, the primitives and
/// the name of the continuation.
pub struct RawBranchModel {
    pub chars: Option<Seq<u8>>,
    pub primitives: Seq<Primitive>,
    pub call: Option<Seq<char>>,
}

/// A state as written, over the branch model.
pub struct RawStateModel {
    pub name: Seq<char>,
    pub branches: Seq<RawBranchModel>,
}

impl View for RawBranch {
    type V = RawBranchModel;

    open spec fn view(&self) -> RawBranchModel {
        RawBranchModel {
            chars: self.sel.chars(),
            primitives: self.primitives@,
            call: match self.call {
                Some(name) => Some(name@),
                None => None,
            },
        }
    }
}

/// The models of a list of branches, one for one.
pub open spec fn branch_models(branches: Seq<RawBranch>) -> Seq<RawBranchModel> {
    Seq::new(branches.len(), |i: int| branches[i]@)
}

impl View for RawState {
    type V = RawStateModel;

    open spec fn view(&self) -> RawStateModel {
        RawStateModel { name: self.name@, branches: branch_models(self.branches@) }
    }
}

/// The models of a list of states, one for one.
pub open spec fn state_models(states: Seq<RawState>) -> Seq<RawStateModel> {
    Seq::new(states.len(), |i: int| states[i]@)
}

/// Why a file node could not be read into a machine.
#[derive(Debug, Clone, PartialEq, Eq)]
pub enum ParseError {
    /// A continuation names no state.
    NameNotFound(String),
    /// The tree is not one of the flat form's grammar.
    UnexpectedTree,
}

/// A fault of reading, with names as character sequences.
pub enum ParseFault {
    NameNotFound(Seq<char>),
    UnexpectedTree,
}

impl View for ParseError {
    type V = ParseFault;

    open spec fn view(&self) -> ParseFault {
        match self {
            ParseError::NameNotFound(name) => ParseFault::NameNotFound(name@),
            ParseError::UnexpectedTree => ParseFault::UnexpectedTree,
        }
    }
}

/// How each node of a list reads as a symbol token.
pub open spec fn chars_of(nodes: Seq<Node<Rule>>) -> Seq<Result<u8, Malformed>> {
    Seq::new(nodes.len(), |i: int| char_of(bytes_of(nodes[i].text)))
}

/// The symbols that a selector node lists; a node without children selects
/// every symbol.
pub open spec fn selector_of(node: Node<Rule>) -> Result<Option<Seq<u8>>, Malformed> {
    if node.children@.len() == 0 {
        Ok(None)
    } else {
        match collect(chars_of(node.children@)) {
            Ok(chars) => Ok(Some(chars)),
            Err(e) => Err(e),
        }
    }
}

/// The primitive that an action node stands for, told by its first byte:
/// `<` moves left, `>` moves right, `=` prints the symbol of its first child.
pub open spec fn action_of(node: Node<Rule>) -> Result<Primitive, Malformed> {
    let bytes = bytes_of(node.text);
    if bytes.len() == 0 {
        Err(Malformed)
    } else if bytes[0] == 0x3c {
        Ok(Primitive::Movel)
    } else if bytes[0] == 0x3e {
        Ok(Primitive::Mover)
    } else if bytes[0] == 0x3d {
        if node.children@.len() == 0 {
            Err(Malformed)
        } else {
            match char_of(bytes_of(node.children@[0].text)) {
                Ok(sym) => Ok(Primitive::Print(sym)),
                Err(e) => Err(e),
            }
        }
    } else {
        Err(Malformed)
    }
}

/// What the nodes after the selector, up to `upto`, add to a branch: every
/// action a primitive, every identifier the continuation, the last one
/// counting.
pub open spec fn tail_of(nodes: Seq<Node<Rule>>, upto: int) -> Result<
    (Seq<Primitive>, Option<Seq<char>>),
    Malformed,
>
    decreases upto,
{
    if upto <= 1 {
        Ok((Seq::empty(), None))
    } else {
        match tail_of(nodes, upto - 1) {
            Err(e) => Err(e),
            Ok((primitives, call)) => match nodes[upto - 1].rule {
                Rule::Action => match action_of(nodes[upto - 1]) {
                    Ok(prim) => Ok((primitives.push(prim), call)),
                    Err(e) => Err(e),
                },
                Rule::Id => Ok((primitives, Some(nodes[upto - 1].text@))),
                _ => Err(Malformed),
            },
        }
    }
}

/// The branch that a branch node stands for: its first child is the
/// selector, the others are actions and identifiers.
pub open spec fn raw_branch_of(node: Node<Rule>) -> Result<RawBranchModel, Malformed> {
    if node.children@.len() == 0 {
        Err(Malformed)
    } else {
        match selector_of(node.children@[0]) {
            Err(e) => Err(e),
            Ok(chars) => match tail_of(node.children@, node.children@.len() as int) {
                Err(e) => Err(e),
                Ok((primitives, call)) => Ok(RawBranchModel { chars, primitives, call }),
            },
        }
    }
}

/// How each child after the first reads as a branch.
pub open spec fn raw_branches_of(node: Node<Rule>) -> Seq<Result<RawBranchModel, Malformed>> {
    Seq::new(
        (node.children@.len() - 1) as nat,
        |i: int| raw_branch_of(node.children@[i + 1]),
    )
}

/// The state that a state node stands for: its first child holds the name,
/// the others are its branches.
pub open spec fn raw_state_of(node: Node<Rule>) -> Result<RawStateModel, Malformed> {
    if node.children@.len() == 0 {
        Err(Malformed)
    } else {
        match collect(raw_branches_of(node)) {
            Err(e) => Err(e),
            Ok(branches) => Ok(RawStateModel { name: node.children@[0].text@, branches }),
        }
    }
}

/// The states among the first `upto` nodes, in order; nodes of other rules
/// are passed over.
pub open spec fn raw_states_upto(nodes: Seq<Node<Rule>>, upto: int) -> Result<
    Seq<RawStateModel>,
    Malformed,
>
    decreases upto,
{
    if upto <= 0 {
        Ok(Seq::empty())
    } else {
        match raw_states_upto(nodes, upto - 1) {
            Err(e) => Err(e),
            Ok(states) => if nodes[upto - 1].rule == Rule::StateDesc {
                match raw_state_of(nodes[upto - 1]) {
                    Ok(state) => Ok(states.push(state)),
                    Err(e) => Err(e),
                }
            } else {
                Ok(states)
            },
        }
    }
}

/// The states that a file node holds.
pub open spec fn raw_states_of(file: Node<Rule>) -> Result<Seq<RawStateModel>, Malformed> {
    raw_states_upto(file.children@, file.children@.len() as int)
}

/// The last state before `upto` that has the name `name`.
pub open spec fn last_named(states: Seq<RawStateModel>, name: Seq<char>, upto: int) -> Option<int>
    decreases upto,
{
    if upto <= 0 || upto > states.len() {
        None
    } else if states[upto - 1].name == name {
        Some(upto - 1)
    } else {
        last_named(states, name, upto - 1)
    }
}

/// What a continuation written in state `me` stands for: `accept` and
/// `reject` end the run, any other name is the last state of that name, and
/// a missing continuation stays in the state. The fault is the name that no
/// state has.
pub open spec fn call_of(states: Seq<RawStateModel>, call: Option<Seq<char>>, me: int) -> Result<
    Call,
    Seq<char>,
> {
    match call {
        None => Ok(Call::State(me as usize)),
        Some(name) => if name == "accept"@ {
            Ok(Call::Accept)
        } else if name == "reject"@ {
            Ok(Call::Reject)
        } else {
            match last_named(states, name, states.len() as int) {
                Some(target) => Ok(Call::State(target as usize)),
                None => Err(name),
            }
        },
    }
}

/// The branch of the machine that a written branch of state `me` stands
/// for.
pub open spec fn branch_of(states: Seq<RawStateModel>, raw: RawBranchModel, me: int) -> Result<
    BranchView,
    Seq<char>,
> {
    match call_of(states, raw.call, me) {
        Ok(call) => Ok(
            BranchView { symbols: symbols_of(raw.chars), primitives: raw.primitives, call },
        ),
        Err(name) => Err(name),
    }
}

/// How each branch of state `me` links.
pub open spec fn branches_of(states: Seq<RawStateModel>, me: int) -> Seq<
    Result<BranchView, Seq<char>>,
> {
    Seq::new(states[me].branches.len(), |j: int| branch_of(states, states[me].branches[j], me))
}

/// How each state links: its branches, or the first name among them that
/// no state has.
pub open spec fn states_of(states: Seq<RawStateModel>) -> Seq<Result<Seq<BranchView>, Seq<char>>> {
    Seq::new(states.len(), |i: int| collect(branches_of(states, i)))
}

/// The machine that a list of states stands for, numbered in the order
/// given; or the first name that no state has.
pub open spec fn linked(states: Seq<RawStateModel>) -> Result<Seq<Seq<BranchView>>, Seq<char>> {
    collect(states_of(states))
}

/// Where `last_named` finds a state, it is one of the states before `upto`.
pub proof fn lemma_last_named_in_range(states: Seq<RawStateModel>, name: Seq<char>, upto: int)
    ensures
        last_named(states, name, upto) is Some ==> 0 <= last_named(states, name, upto)->Some_0
            < states.len(),
    decreases upto,
{
    if 0 < upto <= states.len() && states[upto - 1].name != name {
        lemma_last_named_in_range(states, name, upto - 1);
    }
}

/// Linking gives one state for each state given, and a closed machine.
pub proof fn lemma_linked_is_closed(states: Seq<RawStateModel>)
    requires
        states.len() <= usize::MAX,
        linked(states) is Ok,
    ensures
        linked(states)->Ok_0.len() == states.len(),
        closed(linked(states)->Ok_0),
{
    let machine = linked(states)->Ok_0;
    lemma_collect_items(states_of(states));
    assert forall|i: int, j: int|
        0 <= i < machine.len() && 0 <= j < machine[i].len() implies match #[trigger] machine[i][j].call {
        Call::State(k) => k < machine.len(),
        _ => true,
    } by {
        assert(states_of(states)[i] == Ok::<Seq<BranchView>, Seq<char>>(machine[i]));
        lemma_collect_items(branches_of(states, i));
        assert(branches_of(states, i)[j] == Ok::<BranchView, Seq<char>>(machine[i][j]));
        match states[i].branches[j].call {
            Some(name) => {
                lemma_last_named_in_range(states, name, states.len() as int);
            },
            None => {},
        }
    }
}

/// The branches keep the selectors of the written branches, each as it is
/// written: the same symbols in the same order.
pub open spec fn branches_kept(branches: Seq<Branch>, raw: Seq<RawBranchModel>) -> bool {
    branches.len() == raw.len() && forall|j: int|
        0 <= j < branches.len() ==> (#[trigger] branches[j]).sel.chars() == raw[j].chars
}

/// The states keep the selectors of the written states, each as it is
/// written.
pub open spec fn selectors_kept(states: Seq<State>, raw: Seq<RawStateModel>) -> bool {
    states.len() == raw.len() && forall|i: int|
        0 <= i < states.len() ==> branches_kept(
            (#[trigger] states[i]).branches@,
            raw[i].branches,
        )
}

/// The machine that a file node stands for.
pub open spec fn parsed(file: Node<Rule>) -> Result<Seq<Seq<BranchView>>, ParseFault> {
    match raw_states_of(file) {
        Err(_) => Err(ParseFault::UnexpectedTree),
        Ok(states) => match linked(states) {
            Ok(machine) => Ok(machine),
            Err(name) => Err(ParseFault::NameNotFound(name)),
        },
    }
}

/// Reads a selector node.
pub fn parse_selector(node: &Node<Rule>) -> (out: Result<Selector, Malformed>)
    ensures
        match out {
            Ok(sel) => selector_of(*node) == Ok::<Option<Seq<u8>>, Malformed>(sel.chars()),
            Err(_) => selector_of(*node) is Err,
        },
{
    if node.children.len() == 0 {
        return Ok(Selector::All);
    }
    let ghost outcomes = chars_of(node.children@);
    let mut chars: Vec<u8> = Vec::new();
    let mut i: usize = 0;
    assert(outcomes.take(0) =~= Seq::<Result<u8, Malformed>>::empty());
    while i < node.children.len()
        invariant
            i <= node.children.len(),
            outcomes == chars_of(node.children@),
            collect(outcomes.take(i as int)) == Ok::<Seq<u8>, Malformed>(chars@),
        decreases node.children.len() - i,
    {
        proof {
            lemma_collect_step(outcomes, i as int);
        }
        match parse_char(node.children[i].text.as_str().as_bytes()) {
            Ok(sym) => {
                chars.push(sym);
            },
            Err(e) => {
                proof {
                    lemma_collect_fault(outcomes, i + 1);
                }
                return Err(e);
            },
        }
        i += 1;
    }
    assert(outcomes.take(i as int) =~= outcomes);
    Ok(Selector::Chars(chars))
}

/// Reads an action node.
pub fn parse_action(node: &Node<Rule>) -> (out: Result<Primitive, Malformed>)
    ensures
        out == action_of(*node),
{
    let bytes = node.text.as_str().as_bytes();
    if bytes.len() == 0 {
        return Err(Malformed);
    }
    let first = bytes[0];
    if first == 0x3c {
        Ok(Primitive::Movel)
    } else if first == 0x3e {
        Ok(Primitive::Mover)
    } else if first == 0x3d {
        if node.children.len() == 0 {
            return Err(Malformed);
        }
        match parse_char(node.children[0].text.as_str().as_bytes()) {
            Ok(sym) => Ok(Primitive::Print(sym)),
            Err(e) => Err(e),
        }
    } else {
        Err(Malformed)
    }
}

/// Once the tail is malformed up to some node, it is malformed as a whole.
proof fn lemma_tail_fault(nodes: Seq<Node<Rule>>, k: int, upto: int)
    requires
        k <= upto,
        tail_of(nodes, k) is Err,
    ensures
        tail_of(nodes, upto) is Err,
    decreases upto - k,
{
    if k < upto {
        lemma_tail_fault(nodes, k, upto - 1);
    }
}

/// Reads a branch node.
pub fn parse_branch(node: &Node<Rule>) -> (out: Result<RawBranch, Malformed>)
    ensures
        match out {
            Ok(branch) => raw_branch_of(*node) == Ok::<RawBranchModel, Malformed>(branch@),
            Err(_) => raw_branch_of(*node) is Err,
        },
{
    if node.children.len() == 0 {
        return Err(Malformed);
    }
    let sel = match parse_selector(&node.children[0]) {
        Ok(sel) => sel,
        Err(e) => {
            return Err(e);
        },
    };
    let mut primitives: Vec<Primitive> = Vec::new();
    let mut call: Option<String> = None;
    let mut i: usize = 1;
    while i < node.children.len()
        invariant
            1 <= i <= node.children.len(),
            tail_of(node.children@, i as int) == Ok::<
                (Seq<Primitive>, Option<Seq<char>>),
                Malformed,
            >(
                (
                    primitives@,
                    match call {
                        Some(name) => Some(name@),
                        None => None,
                    },
                ),
            ),
        decreases node.children.len() - i,
    {
        let child = &node.children[i];
        match child.rule {
            Rule::Action => match parse_action(child) {
                Ok(prim) => {
                    primitives.push(prim);
                },
                Err(e) => {
                    proof {
                        lemma_tail_fault(node.children@, i + 1, node.children@.len() as int);
                    }
                    return Err(e);
                },
            },
            Rule::Id => {
                call = Some(child.text.clone());
            },
            _ => {
                proof {
                    lemma_tail_fault(node.children@, i + 1, node.children@.len() as int);
                }
                return Err(Malformed);
            },
        }
        i += 1;
    }
    Ok(RawBranch { sel, primitives, call })
}

/// Reads a state node.
pub fn parse_state(node: &Node<Rule>) -> (out: Result<RawState, Malformed>)
    ensures
        match out {
            Ok(state) => raw_state_of(*node) == Ok::<RawStateModel, Malformed>(state@),
            Err(_) => raw_state_of(*node) is Err,
        },
{
    if node.children.len() == 0 {
        return Err(Malformed);
    }
    let ghost outcomes = raw_branches_of(*node);
    let mut branches: Vec<RawBranch> = Vec::new();
    let mut i: usize = 1;
    assert(outcomes.take(0) =~= Seq::<Result<RawBranchModel, Malformed>>::empty());
    assert(branch_models(branches@) =~= Seq::<RawBranchModel>::empty());
    while i < node.children.len()
        invariant
            1 <= i <= node.children.len(),
            outcomes == raw_branches_of(*node),
            collect(outcomes.take(i - 1)) == Ok::<Seq<RawBranchModel>, Malformed>(
                branch_models(branches@),
            ),
        decreases node.children.len() - i,
    {
        proof {
            lemma_collect_step(outcomes, i - 1);
        }
        match parse_branch(&node.children[i]) {
            Ok(branch) => {
                let ghost before = branches@;
                branches.push(branch);
                assert(branch_models(branches@) =~= branch_models(before).push(branch@));
            },
            Err(e) => {
                proof {
                    lemma_collect_fault(outcomes, i as int);
                }
                return Err(e);
            },
        }
        i += 1;
    }
    assert(outcomes.take(i - 1) =~= outcomes);
    Ok(RawState { name: node.children[0].text.clone(), branches })
}

/// Once the states are malformed up to some node, they are malformed as a
/// whole.
proof fn lemma_states_fault(nodes: Seq<Node<Rule>>, k: int, upto: int)
    requires
        k <= upto,
        raw_states_upto(nodes, k) is Err,
    ensures
        raw_states_upto(nodes, upto) is Err,
    decreases upto - k,
{
    if k < upto {
        lemma_states_fault(nodes, k, upto - 1);
    }
}

/// Reads the states of a file node.
pub fn parse_states(file: &Node<Rule>) -> (out: Result<Vec<RawState>, Malformed>)
    ensures
        match out {
            Ok(states) => raw_states_of(*file) == Ok::<Seq<RawStateModel>, Malformed>(
                state_models(states@),
            ),
            Err(_) => raw_states_of(*file) is Err,
        },
{
    let mut states: Vec<RawState> = Vec::new();
    let mut i: usize = 0;
    assert(state_models(states@) =~= Seq::<RawStateModel>::empty());
    while i < file.children.len()
        invariant
            i <= file.children.len(),
            raw_states_upto(file.children@, i as int) == Ok::<Seq<RawStateModel>, Malformed>(
                state_models(states@),
            ),
        decreases file.children.len() - i,
    {
        let child = &file.children[i];
        if child.rule == Rule::StateDesc {
            match parse_state(child) {
                Ok(state) => {
                    let ghost before = states@;
                    states.push(state);
                    assert(state_models(states@) =~= state_models(before).push(state@));
                },
                Err(e) => {
                    proof {
                        lemma_states_fault(file.children@, i + 1, file.children@.len() as int);
                    }
                    return Err(e);
                },
            }
        }
        i += 1;
    }
    Ok(states)
}

/// The index of the last state named `name`.
fn find_state(states: &Vec<RawState>, name: &String) -> (found: Option<usize>)
    ensures
        match found {
            Some(i) => last_named(state_models(states@), name@, states@.len() as int) == Some(
                i as int,
            ) && i < states@.len(),
            None => last_named(state_models(states@), name@, states@.len() as int) is None,
        },
{
    let ghost models = state_models(states@);
    let mut upto: usize = states.len();
    while upto > 0
        invariant
            upto <= states.len(),
            models == state_models(states@),
            last_named(models, name@, states@.len() as int) == last_named(
                models,
                name@,
                upto as int,
            ),
        decreases upto,
    {
        if states[upto - 1].name.eq(name) {
            return Some(upto - 1);
        }
        upto -= 1;
    }
    None
}

/// Finds what a written continuation stands for.
fn resolve_call(states: &Vec<RawState>, call: &Option<String>, me: usize) -> (out: Result<
    Call,
    ParseError,
>)
    ensures
        match out {
            Ok(target) => call_of(
                state_models(states@),
                match *call {
                    Some(name) => Some(name@),
                    None => None,
                },
                me as int,
            ) == Ok::<Call, Seq<char>>(target),
            Err(e) => e is NameNotFound && call_of(
                state_models(states@),
                match *call {
                    Some(name) => Some(name@),
                    None => None,
                },
                me as int,
            ) == Err::<Call, Seq<char>>(e->NameNotFound_0@),
        },
{
    match call {
        None => Ok(Call::State(me)),
        Some(name) => {
            let accept = String::from_str("accept");
            let reject = String::from_str("reject");
            if name.eq(&accept) {
                Ok(Call::Accept)
            } else if name.eq(&reject) {
                Ok(Call::Reject)
            } else {
                match find_state(states, name) {
                    Some(target) => Ok(Call::State(target)),
                    None => Err(ParseError::NameNotFound(name.clone())),
                }
            }
        },
    }
}

/// A selector with the same list.
fn copy_selector(sel: &Selector) -> (copy: Selector)
    ensures
        copy.chars() == sel.chars(),
{
    match sel {
        Selector::All => Selector::All,
        Selector::Chars(v) => {
            let mut w: Vec<u8> = Vec::new();
            let mut i: usize = 0;
            while i < v.len()
                invariant
                    i <= v.len(),
                    w@ == v@.take(i as int),
                decreases v.len() - i,
            {
                w.push(v[i]);
                assert(w@ =~= v@.take(i + 1));
                i += 1;
            }
            assert(v@.take(i as int) =~= v@);
            Selector::Chars(w)
        },
    }
}

/// The same primitives in a list of their own.
fn copy_primitives(prims: &Vec<Primitive>) -> (copy: Vec<Primitive>)
    ensures
        copy@ == prims@,
{
    let mut copy: Vec<Primitive> = Vec::new();
    let mut i: usize = 0;
    while i < prims.len()
        invariant
            i <= prims.len(),
            copy@ == prims@.take(i as int),
        decreases prims.len() - i,
    {
        copy.push(prims[i]);
        assert(copy@ =~= prims@.take(i + 1));
        i += 1;
    }
    assert(prims@.take(i as int) =~= prims@);
    copy
}

/// Gives every continuation its state index. States are numbered in the
/// order given, and every branch keeps its selector and its primitives as
/// written; the first name that no state has is the fault.
pub fn link_states(states: &Vec<RawState>) -> (out: Result<Machine, ParseError>)
    ensures
        match out {
            Ok(machine) => linked(state_models(states@)) == Ok::<
                Seq<Seq<BranchView>>,
                Seq<char>,
            >(machine@),
            Err(e) => e is NameNotFound && linked(state_models(states@)) == Err::<
                Seq<Seq<BranchView>>,
                Seq<char>,
            >(e->NameNotFound_0@),
        },
        out is Ok ==> closed(out->Ok_0@),
        out is Ok ==> selectors_kept(out->Ok_0.states@, state_models(states@)),
{
    let ghost models = state_models(states@);
    let ghost all = states_of(models);
    let mut built: Vec<State> = Vec::new();
    let mut me: usize = 0;
    assert(all.take(0) =~= Seq::<Result<Seq<BranchView>, Seq<char>>>::empty());
    assert(states_view(built@) =~= Seq::<Seq<BranchView>>::empty());
    while me < states.len()
        invariant
            me <= states.len(),
            models == state_models(states@),
            all == states_of(models),
            collect(all.take(me as int)) == Ok::<Seq<Seq<BranchView>>, Seq<char>>(
                states_view(built@),
            ),
            built@.len() == me,
            forall|i: int|
                0 <= i < me ==> branches_kept((#[trigger] built@[i]).branches@, models[i].branches),
        decreases states.len() - me,
    {
        let raw = &states[me];
        let ghost outcomes = branches_of(models, me as int);
        let mut branches: Vec<Branch> = Vec::new();
        let mut j: usize = 0;
        assert(outcomes.take(0) =~= Seq::<Result<BranchView, Seq<char>>>::empty());
        assert(branches_view(branches@) =~= Seq::<BranchView>::empty());
        proof {
            lemma_collect_step(all, me as int);
        }
        while j < raw.branches.len()
            invariant
                j <= raw.branches.len(),
                me < states.len(),
                *raw == states@[me as int],
                models == state_models(states@),
                outcomes == branches_of(models, me as int),
                all == states_of(models),
                collect(outcomes.take(j as int)) == Ok::<Seq<BranchView>, Seq<char>>(
                    branches_view(branches@),
                ),
                collect(all.take(me as int)) is Ok,
                branches@.len() == j,
                forall|k: int|
                    0 <= k < j ==> (#[trigger] branches@[k]).sel.chars()
                        == models[me as int].branches[k].chars,
            decreases raw.branches.len() - j,
        {
            proof {
                lemma_collect_step(outcomes, j as int);
            }
            let branch = &raw.branches[j];
            assert(models[me as int].branches[j as int] == branch@);
            match resolve_call(states, &branch.call, me) {
                Ok(call) => {
                    let ghost before = branches@;
                    let linked = Branch {
                        sel: copy_selector(&branch.sel),
                        primitives: copy_primitives(&branch.primitives),
                        call,
                    };
                    proof {
                        linked.sel.lemma_view_is_symbols_of_chars();
                    }
                    branches.push(linked);
                    assert(branches_view(branches@) =~= branches_view(before).push(linked@));
                },
                Err(e) => {
                    proof {
                        lemma_collect_fault(outcomes, j + 1);
                        lemma_collect_step(all, me as int);
                        lemma_collect_fault(all, me + 1);
                    }
                    return Err(e);
                },
            }
            j += 1;
        }
        assert(outcomes.take(j as int) =~= outcomes);
        let ghost before = built@;
        let state = State { branches };
        built.push(state);
        assert(states_view(built@) =~= states_view(before).push(state@));
        me += 1;
    }
    assert(all.take(me as int) =~= all);
    proof {
        lemma_linked_is_closed(models);
    }
    Ok(Machine { states: built })
}

/// Reads a file node into a machine.
pub fn parse_machine(file: &Node<Rule>) -> (out: Result<Machine, ParseError>)
    ensures
        match out {
            Ok(machine) => parsed(*file) == Ok::<Seq<Seq<BranchView>>, ParseFault>(machine@),
            Err(e) => parsed(*file) == Err::<Seq<Seq<BranchView>>, ParseFault>(e@),
        },
        out is Ok ==> closed(out->Ok_0@),
        out is Ok ==> raw_states_of(*file) is Ok && selectors_kept(
            out->Ok_0.states@,
            raw_states_of(*file)->Ok_0,
        ),
{
    match parse_states(file) {
        Ok(states) => link_states(&states),
        Err(_) => Err(ParseError::UnexpectedTree),
    }
}

} // verus!
