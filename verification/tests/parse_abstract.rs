use turing_lang::concrete::Call;
use turing_lang::execution::{run, Status};
use turing_lang::parse_abstract::{
    parse_abstract, parse_branch, parse_call_arg, parse_call_chain, parse_primitive,
    parse_selector, parse_selector_elem, parse_statedef, parse_sym, Rule,
};
use turing_lang::skeleton::{CallArg, ChainElem, Primitive, Selector, SelectorElem};
use turing_lang::specialize::compile;
use turing_lang::tape::Tape;
use turing_lang::tree::{Malformed, Node};

fn build(
    templates: Vec<turing_lang::skeleton::StateDef>,
    entry: String,
    limit: usize,
) -> Result<turing_lang::concrete::Machine, turing_lang::error::CompileError> {
    compile(templates, entry, vec![], limit)
}

fn node(rule: Rule, text: &str, children: Vec<Node<Rule>>) -> Node<Rule> {
    Node { rule, text: text.to_string(), children }
}

fn leaf(rule: Rule, text: &str) -> Node<Rule> {
    node(rule, text, vec![])
}

fn ch(text: &str) -> Node<Rule> {
    leaf(Rule::Char, text)
}

fn id(text: &str) -> Node<Rule> {
    leaf(Rule::Id, text)
}

fn sel(inner: Node<Rule>) -> Node<Rule> {
    node(Rule::Sel, "", vec![inner])
}

fn print(elem: Node<Rule>) -> Node<Rule> {
    node(Rule::Primitive, "#", vec![elem])
}

fn call(name: &str, args: Option<Vec<Node<Rule>>>) -> Node<Rule> {
    let mut children = vec![id(name)];
    if let Some(args) = args {
        children.push(node(
            Rule::CallTail,
            "",
            args.into_iter().map(|a| node(Rule::CallArg, "", vec![a])).collect(),
        ));
    }
    node(Rule::Call, "", children)
}

fn chain(parts: Vec<Node<Rule>>) -> Node<Rule> {
    node(Rule::CallChain, "", parts)
}

fn branch(s: Node<Rule>, c: Node<Rule>) -> Node<Rule> {
    node(Rule::Branch, "", vec![s, c])
}

#[test]
fn parse_sym_needs_a_symbol_node() {
    assert_eq!(parse_sym(&ch("'a'")), Ok(b'a'));
    assert_eq!(parse_sym(&ch("'x41'")), Ok(0x41));
    assert_eq!(parse_sym(&id("'a'")), Err(Malformed));
    assert_eq!(parse_sym(&ch("a")), Err(Malformed));
}

#[test]
fn parse_selector_elem_of_tree() {
    assert!(matches!(parse_selector_elem(&ch("'a'")), Ok(SelectorElem::Sym(b'a'))));
    assert!(matches!(parse_selector_elem(&id("x")), Ok(SelectorElem::Id(ref n)) if n == "x"));
    assert!(parse_selector_elem(&leaf(Rule::Sel, "x")).is_err());
    assert!(parse_selector_elem(&ch("oops")).is_err());
}

#[test]
fn template_selector_shapes() {
    let tree = sel(node(
        Rule::SelOr,
        "",
        vec![
            node(Rule::SelAnd, "", vec![ch("'a'"), id("p")]),
            node(Rule::SelNot, "", vec![node(Rule::SelRange, "", vec![ch("'0'"), ch("'9'")])]),
            node(Rule::SelNot, "", vec![]),
            sel(id("q")),
        ],
    ));
    let got = parse_selector(&tree).unwrap();
    match got {
        Selector::Or(v) => {
            assert_eq!(v.len(), 4);
            match &v[0] {
                Selector::And(w) => {
                    assert!(matches!(w[0], Selector::Elem(SelectorElem::Sym(b'a'))));
                    assert!(matches!(w[1], Selector::Elem(SelectorElem::Id(ref n)) if n == "p"));
                }
                other => panic!("unexpected {:?}", other),
            }
            match &v[1] {
                Selector::Not(inner) => assert!(matches!(
                    **inner,
                    Selector::Range(SelectorElem::Sym(b'0'), SelectorElem::Sym(b'9'))
                )),
                other => panic!("unexpected {:?}", other),
            }
            assert!(matches!(v[2], Selector::All));
            assert!(matches!(v[3], Selector::Elem(SelectorElem::Id(ref n)) if n == "q"));
        }
        other => panic!("unexpected {:?}", other),
    }
}

#[test]
fn template_selector_faults() {
    assert!(parse_selector(&node(Rule::Sel, "", vec![])).is_err());
    assert!(parse_selector(&node(Rule::SelRange, "", vec![ch("'a'")])).is_err());
    assert!(parse_selector(&node(Rule::SelOr, "", vec![ch("'a'"), ch("oops")])).is_err());
    assert!(parse_selector(&node(Rule::SelNot, "", vec![leaf(Rule::Branch, "")])).is_err());
    assert!(parse_selector(&leaf(Rule::Call, "")).is_err());
    assert!(matches!(parse_selector(&node(Rule::SelOr, "", vec![])), Ok(Selector::Or(ref v)) if v.is_empty()));
}

#[test]
fn parse_primitive_of_tree() {
    assert!(matches!(parse_primitive(&leaf(Rule::Primitive, "<")), Ok(Primitive::Movel)));
    assert!(matches!(parse_primitive(&leaf(Rule::Primitive, ">")), Ok(Primitive::Mover)));
    assert!(matches!(
        parse_primitive(&print(ch("'z'"))),
        Ok(Primitive::Print(SelectorElem::Sym(b'z')))
    ));
    assert!(matches!(
        parse_primitive(&print(id("p"))),
        Ok(Primitive::Print(SelectorElem::Id(ref n))) if n == "p"
    ));
    assert!(parse_primitive(&leaf(Rule::Primitive, "#")).is_err());
    assert!(parse_primitive(&leaf(Rule::Primitive, "")).is_err());
    assert!(parse_primitive(&leaf(Rule::Primitive, "=")).is_err());
}

#[test]
fn parse_call_arg_kinds() {
    let arg = |inner| node(Rule::CallArg, "", vec![inner]);
    assert!(matches!(parse_call_arg(&arg(ch("'a'"))), Ok(CallArg::Sym(b'a'))));
    assert!(matches!(parse_call_arg(&arg(id("k"))), Ok(CallArg::Id(ref n)) if n == "k"));
    assert!(matches!(parse_call_arg(&arg(sel(ch("'a'")))), Ok(CallArg::Sel(Selector::Elem(_)))));
    assert!(matches!(
        parse_call_arg(&arg(chain(vec![leaf(Rule::KeywordAccept, "accept")]))),
        Ok(CallArg::Chain(ref c)) if c.parts.len() == 1
    ));
    assert!(parse_call_arg(&node(Rule::CallArg, "", vec![])).is_err());
    assert!(parse_call_arg(&arg(leaf(Rule::Primitive, "<"))).is_err());
    assert!(parse_call_arg(&arg(ch("nope"))).is_err());
}

#[test]
fn parse_call_chain_keeps_order() {
    let tree = chain(vec![
        leaf(Rule::Primitive, ">"),
        call("f", Some(vec![ch("'a'"), id("k")])),
        call("g", None),
        leaf(Rule::KeywordReject, "reject"),
        leaf(Rule::KeywordAccept, "accept"),
    ]);
    let got = parse_call_chain(&tree).unwrap();
    assert_eq!(got.parts.len(), 5);
    assert!(matches!(got.parts[0], ChainElem::Prim(Primitive::Mover)));
    match &got.parts[1] {
        ChainElem::Call { id, args } => {
            assert_eq!(id, "f");
            assert_eq!(args.len(), 2);
            assert!(matches!(args[0], CallArg::Sym(b'a')));
            assert!(matches!(args[1], CallArg::Id(ref n) if n == "k"));
        }
        other => panic!("unexpected {:?}", other),
    }
    assert!(matches!(got.parts[2], ChainElem::Call { ref id, ref args } if id == "g" && args.is_empty()));
    assert!(matches!(got.parts[3], ChainElem::Reject));
    assert!(matches!(got.parts[4], ChainElem::Accept));
}

#[test]
fn parse_call_chain_faults() {
    assert!(parse_call_chain(&chain(vec![id("f")])).is_err());
    assert!(parse_call_chain(&chain(vec![node(Rule::Call, "", vec![])])).is_err());
    assert!(parse_call_chain(&chain(vec![call("f", Some(vec![leaf(Rule::Other, "")]))])).is_err());
    assert!(parse_call_chain(&chain(vec![leaf(Rule::Primitive, "?")])).is_err());
    assert!(parse_call_chain(&chain(vec![])).unwrap().parts.is_empty());
    let ignored = node(Rule::Call, "", vec![id("f"), leaf(Rule::Other, "")]);
    assert!(matches!(
        parse_call_chain(&chain(vec![ignored])).unwrap().parts[0],
        ChainElem::Call { ref args, .. } if args.is_empty()
    ));
}

#[test]
fn template_branch_of_tree() {
    let b = parse_branch(&branch(sel(ch("'1'")), chain(vec![leaf(Rule::Primitive, "<")]))).unwrap();
    assert!(matches!(b.sel, Selector::Elem(SelectorElem::Sym(b'1'))));
    assert_eq!(b.chain.parts.len(), 1);
    assert!(parse_branch(&node(Rule::Branch, "", vec![sel(ch("'1'"))])).is_err());
    assert!(parse_branch(&node(Rule::Other, "", vec![sel(ch("'1'")), chain(vec![])])).is_err());
}

#[test]
fn parse_statedef_with_params_and_branches() {
    let tree = node(
        Rule::StateDef,
        "",
        vec![
            id("f"),
            node(Rule::Params, "", vec![id("x"), id("k")]),
            branch(sel(id("x")), chain(vec![print(id("x")), call("f", Some(vec![ch("'b'"), id("k")]))])),
            branch(node(Rule::SelNot, "", vec![]), chain(vec![leaf(Rule::KeywordReject, "reject")])),
        ],
    );
    let def = parse_statedef(&tree).unwrap();
    assert_eq!(def.name, "f");
    assert_eq!(def.params, vec!["x".to_string(), "k".to_string()]);
    assert_eq!(def.branches.len(), 2);
    assert!(matches!(def.branches[1].sel, Selector::All));
}

#[test]
fn parse_statedef_bare_chain_is_one_branch_for_every_symbol() {
    let tree = node(
        Rule::StateDef,
        "",
        vec![id("main"), chain(vec![leaf(Rule::Primitive, ">"), call("main", None)])],
    );
    let def = parse_statedef(&tree).unwrap();
    assert_eq!(def.name, "main");
    assert!(def.params.is_empty());
    assert_eq!(def.branches.len(), 1);
    assert!(matches!(def.branches[0].sel, Selector::All));
    assert_eq!(def.branches[0].chain.parts.len(), 2);
    let with_params = node(
        Rule::StateDef,
        "",
        vec![id("g"), node(Rule::Params, "", vec![id("k")]), chain(vec![])],
    );
    let def = parse_statedef(&with_params).unwrap();
    assert_eq!(def.params, vec!["k".to_string()]);
    assert_eq!(def.branches.len(), 1);
}

#[test]
fn parse_statedef_faults_and_edges() {
    assert!(parse_statedef(&node(Rule::StateDef, "", vec![])).is_err());
    assert!(parse_statedef(&node(Rule::StateDef, "", vec![id("a"), id("b")])).is_err());
    let none = parse_statedef(&node(Rule::StateDef, "", vec![id("a")])).unwrap();
    assert!(none.branches.is_empty());
    assert!(none.params.is_empty());
}

fn increment_file() -> Node<Rule> {
    let carry = || {
        branch(
            sel(ch("'1'")),
            chain(vec![print(ch("'0'")), leaf(Rule::Primitive, "<"), call("carry", None)]),
        )
    };
    node(
        Rule::File,
        "",
        vec![
            node(
                Rule::StateDef,
                "",
                vec![
                    id("main"),
                    carry(),
                    branch(
                        node(Rule::SelNot, "", vec![]),
                        chain(vec![leaf(Rule::Primitive, ">"), call("main", None)]),
                    ),
                ],
            ),
            leaf(Rule::Other, ""),
            node(
                Rule::StateDef,
                "",
                vec![
                    id("carry"),
                    carry(),
                    branch(
                        node(Rule::SelNot, "", vec![]),
                        chain(vec![print(ch("'1'")), leaf(Rule::KeywordAccept, "accept")]),
                    ),
                ],
            ),
        ],
    )
}

#[test]
fn parse_abstract_reads_every_template_in_order() {
    let defs = parse_abstract(&increment_file()).unwrap();
    assert_eq!(defs.len(), 2);
    assert_eq!(defs[0].name, "main");
    assert_eq!(defs[1].name, "carry");
    assert!(parse_abstract(&leaf(Rule::File, "")).unwrap().is_empty());
    let broken = node(Rule::File, "", vec![node(Rule::StateDef, "", vec![])]);
    assert!(parse_abstract(&broken).is_err());
}

#[test]
fn parsed_templates_compile_and_run() {
    let defs = parse_abstract(&increment_file()).unwrap();
    let machine = build(defs, "main".to_string(), 8).unwrap();
    assert_eq!(machine.states.len(), 2);
    assert_eq!(machine.states[0].branches[0].call, Call::State(1));
    let out = run(&machine, 0, Tape::from("1011"), 100);
    assert_eq!(out.status, Status::Accepted);
    let cells: Vec<u8> = (0..4).map(|p| out.tape.get(p)).collect();
    assert_eq!(cells, b"0011".to_vec());
}
