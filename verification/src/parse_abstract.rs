//! Reading the template form: from a parse tree to state templates.

use crate::skeleton::{
    Branch, CallArg, Chain, ChainElem, Primitive, Selector, SelectorElem, StateDef,
};
use crate::tree::{bytes_of, char_of, parse_char, Malformed, Node};
use vstd::prelude::*;

verus! {

/// The rules of the template form's grammar that its reader tells apart.
#[derive(Debug, Clone, Copy, PartialEq, Eq, Structural)]
pub enum Rule {
    File,
    StateDef,
    Params,
    Branch,
    CallChain,
    Call,
    CallTail,
    CallArg,
    Primitive,
    KeywordAccept,
    KeywordReject,
    Sel,
    SelOr,
    SelAnd,
    SelNot,
    SelRange,
    Char,
    Id,
    Other,
}

/// The symbol that a symbol node stands for.
pub open spec fn sym_of(node: Node<Rule>) -> Result<u8, Malformed> {
    if node.rule == Rule::Char {
        char_of(bytes_of(node.text))
    } else {
        Err(Malformed)
    }
}

/// Reads a symbol node.
pub fn parse_sym(node: &Node<Rule>) -> (out: Result<u8, Malformed>)
    ensures
        out == sym_of(*node),
{
    if node.rule == Rule::Char {
        parse_char(node.text.as_str().as_bytes())
    } else {
        Err(Malformed)
    }
}

/// Whether a node can be read as a symbol or a name.
pub open spec fn elem_ok(node: Node<Rule>) -> bool {
    match node.rule {
        Rule::Char => sym_of(node) is Ok,
        Rule::Id => true,
        _ => false,
    }
}

/// `elem` is what the node reads as: a symbol node its symbol, an
/// identifier node its text.
pub open spec fn elem_of(node: Node<Rule>, elem: SelectorElem) -> bool {
    match node.rule {
        Rule::Char => elem is Sym && sym_of(node) == Ok::<u8, Malformed>(elem->Sym_0),
        Rule::Id => elem is Id && elem->Id_0@ == node.text@,
        _ => false,
    }
}

/// Reads a symbol or a name.
pub fn parse_selector_elem(node: &Node<Rule>) -> (out: Result<SelectorElem, Malformed>)
    ensures
        match out {
            Ok(elem) => elem_ok(*node) && elem_of(*node, elem),
            Err(_) => !elem_ok(*node),
        },
{
    match node.rule {
        Rule::Char => match parse_sym(node) {
            Ok(sym) => Ok(SelectorElem::Sym(sym)),
            Err(e) => Err(e),
        },
        Rule::Id => Ok(SelectorElem::Id(node.text.clone())),
        _ => Err(Malformed),
    }
}

/// Whether a node can be read as a selector.
pub open spec fn selector_ok(node: Node<Rule>) -> bool
    decreases node,
{
    match node.rule {
        Rule::Sel => node.children@.len() > 0 && selector_ok(node.children@[0]),
        Rule::SelOr | Rule::SelAnd => forall|i: int|
            0 <= i < node.children@.len() ==> selector_ok(#[trigger] node.children@[i]),
        Rule::SelNot => node.children@.len() == 0 || selector_ok(node.children@[0]),
        Rule::SelRange => node.children@.len() >= 2 && elem_ok(node.children@[0]) && elem_ok(
            node.children@[1],
        ),
        _ => elem_ok(node),
    }
}

/// `sel` is what the node reads as. A wrapper node reads as its first
/// child; a disjunction or conjunction as its children, one for one; a
/// negation as the negation of its child, or as every symbol if it has
/// none; a range as its first two children; anything else as one element.
pub open spec fn selector_of(node: Node<Rule>, sel: Selector) -> bool
    decreases node,
{
    match node.rule {
        Rule::Sel => node.children@.len() > 0 && selector_of(node.children@[0], sel),
        Rule::SelOr => sel is Or && sel->Or_0@.len() == node.children@.len() && forall|i: int|
            0 <= i < node.children@.len() ==> selector_of(
                #[trigger] node.children@[i],
                sel->Or_0@[i],
            ),
        Rule::SelAnd => sel is And && sel->And_0@.len() == node.children@.len() && forall|i: int|
            0 <= i < node.children@.len() ==> selector_of(
                #[trigger] node.children@[i],
                sel->And_0@[i],
            ),
        Rule::SelNot => if node.children@.len() == 0 {
            sel is All
        } else {
            sel is Not && selector_of(node.children@[0], *sel->Not_0)
        },
        Rule::SelRange => sel is Range && node.children@.len() >= 2 && elem_of(
            node.children@[0],
            sel->Range_0,
        ) && elem_of(node.children@[1], sel->Range_1),
        _ => sel is Elem && elem_of(node, sel->Elem_0),
    }
}

/// Reads the children of a node as selectors, one for one.
fn parse_selectors(node: &Node<Rule>) -> (out: Result<Vec<Selector>, Malformed>)
    ensures
        match out {
            Ok(v) => v@.len() == node.children@.len() && forall|i: int|
                0 <= i < node.children@.len() ==> selector_ok(#[trigger] node.children@[i])
                    && selector_of(node.children@[i], v@[i]),
            Err(_) => exists|i: int|
                0 <= i < node.children@.len() && !selector_ok(#[trigger] node.children@[i]),
        },
    decreases node, 0int,
{
    let mut v: Vec<Selector> = Vec::new();
    let mut i: usize = 0;
    while i < node.children.len()
        invariant
            i <= node.children.len(),
            v@.len() == i,
            forall|k: int|
                0 <= k < i ==> selector_ok(#[trigger] node.children@[k]) && selector_of(
                    node.children@[k],
                    v@[k],
                ),
        decreases node.children.len() - i,
    {
        match parse_selector(&node.children[i]) {
            Ok(sel) => {
                v.push(sel);
            },
            Err(e) => {
                assert(!selector_ok(node.children@[i as int]));
                return Err(e);
            },
        }
        i += 1;
    }
    Ok(v)
}

/// Reads a selector node.
pub fn parse_selector(node: &Node<Rule>) -> (out: Result<Selector, Malformed>)
    ensures
        match out {
            Ok(sel) => selector_ok(*node) && selector_of(*node, sel),
            Err(_) => !selector_ok(*node),
        },
    decreases node, 1int,
{
    match node.rule {
        Rule::Sel => {
            if node.children.len() == 0 {
                return Err(Malformed);
            }
            parse_selector(&node.children[0])
        },
        Rule::SelOr => match parse_selectors(node) {
            Ok(v) => Ok(Selector::Or(v)),
            Err(e) => Err(e),
        },
        Rule::SelAnd => match parse_selectors(node) {
            Ok(v) => Ok(Selector::And(v)),
            Err(e) => Err(e),
        },
        Rule::SelNot => {
            if node.children.len() == 0 {
                return Ok(Selector::All);
            }
            match parse_selector(&node.children[0]) {
                Ok(inner) => Ok(Selector::Not(Box::new(inner))),
                Err(e) => Err(e),
            }
        },
        Rule::SelRange => {
            if node.children.len() < 2 {
                return Err(Malformed);
            }
            let start = match parse_selector_elem(&node.children[0]) {
                Ok(elem) => elem,
                Err(e) => {
                    return Err(e);
                },
            };
            let end = match parse_selector_elem(&node.children[1]) {
                Ok(elem) => elem,
                Err(e) => {
                    return Err(e);
                },
            };
            Ok(Selector::Range(start, end))
        },
        _ => match parse_selector_elem(node) {
            Ok(elem) => Ok(Selector::Elem(elem)),
            Err(e) => Err(e),
        },
    }
}

/// Whether a node can be read as a primitive.
pub open spec fn primitive_ok(node: Node<Rule>) -> bool {
    let bytes = bytes_of(node.text);
    bytes.len() > 0 && (bytes[0] == 0x3c || bytes[0] == 0x3e || (bytes[0] == 0x23
        && node.children@.len() > 0 && elem_ok(node.children@[0])))
}

/// `prim` is what the node reads as, told by its first byte: `<` moves
/// left, `>` moves right, `#` prints what its first child reads as.
pub open spec fn primitive_of(node: Node<Rule>, prim: Primitive) -> bool {
    let bytes = bytes_of(node.text);
    bytes.len() > 0 && if bytes[0] == 0x3c {
        prim is Movel
    } else if bytes[0] == 0x3e {
        prim is Mover
    } else {
        bytes[0] == 0x23 && node.children@.len() > 0 && prim is Print && elem_of(
            node.children@[0],
            prim->Print_0,
        )
    }
}

/// Reads a primitive node.
pub fn parse_primitive(node: &Node<Rule>) -> (out: Result<Primitive, Malformed>)
    ensures
        match out {
            Ok(prim) => primitive_ok(*node) && primitive_of(*node, prim),
            Err(_) => !primitive_ok(*node),
        },
{
    let bytes = node.text.as_str().as_bytes();
    if bytes.len() == 0 {
        return Err(Malformed);
    }
    let first = bytes[0];
    if first == 0x3c {
        Ok(Primitive::Movel)
    } else if first == 0x3e {
        Ok(Primitive::Mover)
    } else if first == 0x23 {
        if node.children.len() == 0 {
            return Err(Malformed);
        }
        match parse_selector_elem(&node.children[0]) {
            Ok(elem) => Ok(Primitive::Print(elem)),
            Err(e) => Err(e),
        }
    } else {
        Err(Malformed)
    }
}

/// Whether a node can be read as an argument of a call.
pub open spec fn arg_ok(node: Node<Rule>) -> bool
    decreases node, 0int,
{
    node.children@.len() > 0 && match node.children@[0].rule {
        Rule::Sel => selector_ok(node.children@[0]),
        Rule::CallChain => chain_ok(node.children@[0]),
        Rule::Char => sym_of(node.children@[0]) is Ok,
        Rule::Id => true,
        _ => false,
    }
}

/// Whether the arguments of a call node can be read: they are the children
/// of its second child, if that is an argument list.
pub open spec fn call_ok(node: Node<Rule>) -> bool
    decreases node, 0int,
{
    node.children@.len() > 0 && (node.children@.len() >= 2 && node.children@[1].rule
        == Rule::CallTail ==> forall|j: int|
        0 <= j < node.children@[1].children@.len() ==> arg_ok(
            #[trigger] node.children@[1].children@[j],
        ))
}

/// Whether a node can be read as an element of a chain.
pub open spec fn part_ok(node: Node<Rule>) -> bool
    decreases node, 1int,
{
    match node.rule {
        Rule::Primitive => primitive_ok(node),
        Rule::Call => call_ok(node),
        Rule::KeywordAccept | Rule::KeywordReject => true,
        _ => false,
    }
}

/// Whether a node can be read as a chain.
pub open spec fn chain_ok(node: Node<Rule>) -> bool
    decreases node, 0int,
{
    forall|i: int| 0 <= i < node.children@.len() ==> part_ok(#[trigger] node.children@[i])
}

/// `arg` is what the node reads as, told by the rule of its first child.
pub open spec fn arg_of(node: Node<Rule>, arg: CallArg) -> bool
    decreases node, 0int,
{
    node.children@.len() > 0 && match node.children@[0].rule {
        Rule::Sel => arg is Sel && selector_of(node.children@[0], arg->Sel_0),
        Rule::CallChain => arg is Chain && chain_of(node.children@[0], arg->Chain_0),
        Rule::Char => arg is Sym && sym_of(node.children@[0]) == Ok::<u8, Malformed>(arg->Sym_0),
        Rule::Id => arg is Id && arg->Id_0@ == node.children@[0].text@,
        _ => false,
    }
}

/// `args` are the arguments of the call node, one for one; a call without
/// an argument list has none.
pub open spec fn args_of(node: Node<Rule>, args: Seq<CallArg>) -> bool
    decreases node, 0int,
{
    if node.children@.len() >= 2 && node.children@[1].rule == Rule::CallTail {
        args.len() == node.children@[1].children@.len() && forall|j: int|
            0 <= j < node.children@[1].children@.len() ==> arg_of(
                #[trigger] node.children@[1].children@[j],
                args[j],
            )
    } else {
        args.len() == 0
    }
}

/// `part` is what the node reads as: a primitive, a call named by its first
/// child, or one of the two keywords.
pub open spec fn part_of(node: Node<Rule>, part: ChainElem) -> bool
    decreases node, 1int,
{
    match node.rule {
        Rule::Primitive => part is Prim && primitive_of(node, part->Prim_0),
        Rule::Call => part is Call && node.children@.len() > 0 && part->Call_id@
            == node.children@[0].text@ && args_of(node, part->Call_args@),
        Rule::KeywordAccept => part is Accept,
        Rule::KeywordReject => part is Reject,
        _ => false,
    }
}

/// `chain` holds what the children of the node read as, one for one.
pub open spec fn chain_of(node: Node<Rule>, chain: Chain) -> bool
    decreases node, 0int,
{
    chain.parts@.len() == node.children@.len() && forall|i: int|
        0 <= i < node.children@.len() ==> part_of(#[trigger] node.children@[i], chain.parts@[i])
}

/// Reads an argument node.
pub fn parse_call_arg(node: &Node<Rule>) -> (out: Result<CallArg, Malformed>)
    ensures
        match out {
            Ok(arg) => arg_ok(*node) && arg_of(*node, arg),
            Err(_) => !arg_ok(*node),
        },
    decreases node,
{
    if node.children.len() == 0 {
        return Err(Malformed);
    }
    let inner = &node.children[0];
    match inner.rule {
        Rule::Sel => match parse_selector(inner) {
            Ok(sel) => Ok(CallArg::Sel(sel)),
            Err(e) => Err(e),
        },
        Rule::CallChain => match parse_call_chain(inner) {
            Ok(chain) => Ok(CallArg::Chain(chain)),
            Err(e) => Err(e),
        },
        Rule::Char => match parse_sym(inner) {
            Ok(sym) => Ok(CallArg::Sym(sym)),
            Err(e) => Err(e),
        },
        Rule::Id => Ok(CallArg::Id(inner.text.clone())),
        _ => Err(Malformed),
    }
}

/// Reads a call node.
fn parse_call(node: &Node<Rule>) -> (out: Result<ChainElem, Malformed>)
    requires
        node.rule == Rule::Call,
    ensures
        match out {
            Ok(part) => part_ok(*node) && part_of(*node, part),
            Err(_) => !part_ok(*node),
        },
    decreases node,
{
    if node.children.len() == 0 {
        return Err(Malformed);
    }
    let mut args: Vec<CallArg> = Vec::new();
    if node.children.len() >= 2 && node.children[1].rule == Rule::CallTail {
        let tail = &node.children[1];
        let mut j: usize = 0;
        while j < tail.children.len()
            invariant
                j <= tail.children.len(),
                node.rule == Rule::Call,
                node.children@.len() >= 2,
                *tail == node.children@[1],
                tail.rule == Rule::CallTail,
                args@.len() == j,
                forall|k: int|
                    0 <= k < j ==> arg_ok(#[trigger] tail.children@[k]) && arg_of(
                        tail.children@[k],
                        args@[k],
                    ),
            decreases tail.children.len() - j,
        {
            match parse_call_arg(&tail.children[j]) {
                Ok(arg) => {
                    args.push(arg);
                },
                Err(e) => {
                    assert(!arg_ok(node.children@[1].children@[j as int]));
                    return Err(e);
                },
            }
            j += 1;
        }
    }
    Ok(ChainElem::Call { id: node.children[0].text.clone(), args })
}

/// Reads a chain node.
pub fn parse_call_chain(node: &Node<Rule>) -> (out: Result<Chain, Malformed>)
    ensures
        match out {
            Ok(chain) => chain_ok(*node) && chain_of(*node, chain),
            Err(_) => !chain_ok(*node),
        },
    decreases node,
{
    let mut parts: Vec<ChainElem> = Vec::new();
    let mut i: usize = 0;
    while i < node.children.len()
        invariant
            i <= node.children.len(),
            parts@.len() == i,
            forall|k: int|
                0 <= k < i ==> part_ok(#[trigger] node.children@[k]) && part_of(
                    node.children@[k],
                    parts@[k],
                ),
        decreases node.children.len() - i,
    {
        let child = &node.children[i];
        let part = match child.rule {
            Rule::Primitive => match parse_primitive(child) {
                Ok(prim) => ChainElem::Prim(prim),
                Err(e) => {
                    assert(!part_ok(node.children@[i as int]));
                    return Err(e);
                },
            },
            Rule::Call => match parse_call(child) {
                Ok(call) => call,
                Err(e) => {
                    assert(!part_ok(node.children@[i as int]));
                    return Err(e);
                },
            },
            Rule::KeywordAccept => ChainElem::Accept,
            Rule::KeywordReject => ChainElem::Reject,
            _ => {
                assert(!part_ok(node.children@[i as int]));
                return Err(Malformed);
            },
        };
        parts.push(part);
        i += 1;
    }
    Ok(Chain { parts })
}

/// Whether a node can be read as a branch.
pub open spec fn branch_ok(node: Node<Rule>) -> bool {
    node.rule == Rule::Branch && node.children@.len() >= 2 && selector_ok(node.children@[0])
        && chain_ok(node.children@[1])
}

/// `branch` is what the node reads as: its first child is the selector,
/// its second the chain.
pub open spec fn branch_of(node: Node<Rule>, branch: Branch) -> bool {
    node.children@.len() >= 2 && selector_of(node.children@[0], branch.sel) && chain_of(
        node.children@[1],
        branch.chain,
    )
}

/// Reads a branch node.
pub fn parse_branch(node: &Node<Rule>) -> (out: Result<Branch, Malformed>)
    ensures
        match out {
            Ok(branch) => branch_ok(*node) && branch_of(*node, branch),
            Err(_) => !branch_ok(*node),
        },
{
    if node.rule != Rule::Branch || node.children.len() < 2 {
        return Err(Malformed);
    }
    let sel = match parse_selector(&node.children[0]) {
        Ok(sel) => sel,
        Err(e) => {
            return Err(e);
        },
    };
    let chain = match parse_call_chain(&node.children[1]) {
        Ok(chain) => chain,
        Err(e) => {
            return Err(e);
        },
    };
    Ok(Branch { sel, chain })
}

/// Where the body of a template node starts: after the name and, if there
/// is one, the parameter list.
pub open spec fn body_start(node: Node<Rule>) -> int {
    if node.children@.len() >= 2 && node.children@[1].rule == Rule::Params {
        2
    } else {
        1
    }
}

/// Whether the body of a template node is one bare chain.
pub open spec fn is_bare(node: Node<Rule>) -> bool {
    node.children@.len() > body_start(node) && node.children@[body_start(node)].rule
        == Rule::CallChain
}

/// Whether a node can be read as a template.
pub open spec fn statedef_ok(node: Node<Rule>) -> bool {
    node.children@.len() > 0 && if is_bare(node) {
        chain_ok(node.children@[body_start(node)])
    } else {
        forall|i: int|
            body_start(node) <= i < node.children@.len() ==> branch_ok(
                #[trigger] node.children@[i],
            )
    }
}

/// `def` is what the node reads as: the first child holds the name; a
/// parameter list, if it comes next, holds the parameters; then comes either
/// one bare chain, which stands for a single branch that selects every
/// symbol, or the branches.
pub open spec fn statedef_of(node: Node<Rule>, def: StateDef) -> bool {
    let start = body_start(node);
    &&& node.children@.len() > 0
    &&& def.name@ == node.children@[0].text@
    &&& if start == 2 {
        def.params@.len() == node.children@[1].children@.len() && forall|j: int|
            0 <= j < def.params@.len() ==> (#[trigger] def.params@[j])@
                == node.children@[1].children@[j].text@
    } else {
        def.params@.len() == 0
    }
    &&& if is_bare(node) {
        def.branches@.len() == 1 && def.branches@[0].sel is All && chain_of(
            node.children@[start],
            def.branches@[0].chain,
        )
    } else {
        def.branches@.len() == node.children@.len() - start && forall|i: int|
            0 <= i < def.branches@.len() ==> branch_of(
                #[trigger] node.children@[start + i],
                def.branches@[i],
            )
    }
}

/// Reads a template node.
pub fn parse_statedef(node: &Node<Rule>) -> (out: Result<StateDef, Malformed>)
    ensures
        match out {
            Ok(def) => statedef_ok(*node) && statedef_of(*node, def),
            Err(_) => !statedef_ok(*node),
        },
{
    if node.children.len() == 0 {
        return Err(Malformed);
    }
    let name = node.children[0].text.clone();
    let mut params: Vec<String> = Vec::new();
    let mut start: usize = 1;
    if node.children.len() >= 2 && node.children[1].rule == Rule::Params {
        let list = &node.children[1];
        let mut j: usize = 0;
        while j < list.children.len()
            invariant
                j <= list.children.len(),
                params@.len() == j,
                forall|k: int| 0 <= k < j ==> (#[trigger] params@[k])@ == list.children@[k].text@,
            decreases list.children.len() - j,
        {
            params.push(list.children[j].text.clone());
            j += 1;
        }
        start = 2;
    }
    assert(start == body_start(*node));
    let mut branches: Vec<Branch> = Vec::new();
    if start < node.children.len() && node.children[start].rule == Rule::CallChain {
        let chain = match parse_call_chain(&node.children[start]) {
            Ok(chain) => chain,
            Err(e) => {
                return Err(e);
            },
        };
        branches.push(Branch { sel: Selector::All, chain });
    } else {
        let mut i: usize = start;
        while i < node.children.len()
            invariant
                start <= i <= node.children.len(),
                start == body_start(*node),
                !is_bare(*node),
                branches@.len() == i - start,
                forall|k: int|
                    start <= k < i ==> branch_ok(#[trigger] node.children@[k]) && branch_of(
                        node.children@[k],
                        branches@[k - start],
                    ),
            decreases node.children.len() - i,
        {
            match parse_branch(&node.children[i]) {
                Ok(branch) => {
                    branches.push(branch);
                },
                Err(e) => {
                    assert(!branch_ok(node.children@[i as int]));
                    return Err(e);
                },
            }
            i += 1;
        }
        assert forall|k: int| 0 <= k < branches@.len() implies branch_of(
            #[trigger] node.children@[start + k],
            branches@[k],
        ) by {
            assert(branch_ok(node.children@[start + k]));
        }
    }
    Ok(StateDef { name, params, branches })
}

/// Whether every template node among the first `upto` nodes can be read.
pub open spec fn templates_ok(nodes: Seq<Node<Rule>>, upto: int) -> bool {
    forall|i: int|
        0 <= i < upto && (#[trigger] nodes[i]).rule == Rule::StateDef ==> statedef_ok(nodes[i])
}

/// `defs` are what the template nodes among the first `upto` nodes read
/// as, in order; nodes of other rules are passed over.
pub open spec fn templates_of(nodes: Seq<Node<Rule>>, upto: int, defs: Seq<StateDef>) -> bool
    decreases upto,
{
    if upto <= 0 {
        defs.len() == 0
    } else if nodes[upto - 1].rule == Rule::StateDef {
        defs.len() > 0 && statedef_of(nodes[upto - 1], defs.last()) && templates_of(
            nodes,
            upto - 1,
            defs.drop_last(),
        )
    } else {
        templates_of(nodes, upto - 1, defs)
    }
}

/// Reads the templates of a file node.
pub fn parse_abstract(file: &Node<Rule>) -> (out: Result<Vec<StateDef>, Malformed>)
    ensures
        match out {
            Ok(defs) => templates_ok(file.children@, file.children@.len() as int)
                && templates_of(file.children@, file.children@.len() as int, defs@),
            Err(_) => !templates_ok(file.children@, file.children@.len() as int),
        },
{
    let mut defs: Vec<StateDef> = Vec::new();
    let mut i: usize = 0;
    while i < file.children.len()
        invariant
            i <= file.children.len(),
            templates_ok(file.children@, i as int),
            templates_of(file.children@, i as int, defs@),
        decreases file.children.len() - i,
    {
        let child = &file.children[i];
        if child.rule == Rule::StateDef {
            match parse_statedef(child) {
                Ok(def) => {
                    let ghost before = defs@;
                    defs.push(def);
                    assert(defs@.drop_last() =~= before);
                },
                Err(e) => {
                    assert(!statedef_ok(file.children@[i as int]));
                    return Err(e);
                },
            }
        }
        i += 1;
    }
    Ok(defs)
}

} // verus!
