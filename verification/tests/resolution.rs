use turing_lang::env::Environment;
use turing_lang::error::CompileError;
use turing_lang::resolved::{
    ResolvedCallArg, ResolvedChain, ResolvedChainElem, ResolvedPrimitive, ResolvedSelector,
};
use turing_lang::skeleton::{CallArg, Chain, ChainElem, Primitive, Selector, SelectorElem};

fn id(name: &str) -> SelectorElem {
    SelectorElem::Id(name.to_string())
}

fn env() -> Environment {
    let mut env = Environment::new();
    env.bind("s".to_string(), ResolvedCallArg::Sym(b'x'));
    env.bind("one".to_string(), ResolvedCallArg::Sel(ResolvedSelector::Elem(b'y')));
    env.bind("many".to_string(), ResolvedCallArg::Sel(ResolvedSelector::Range(1, 9)));
    env.bind(
        "k".to_string(),
        ResolvedCallArg::Chain(ResolvedChain {
            parts: vec![ResolvedChainElem::Prim(ResolvedPrimitive::Mover), ResolvedChainElem::Accept],
        }),
    );
    env
}

#[test]
fn lookup_finds_the_latest_binding() {
    let mut e = env();
    assert_eq!(e.lookup(&"s".to_string()), Some(&ResolvedCallArg::Sym(b'x')));
    assert_eq!(e.lookup(&"nope".to_string()), None);
    e.bind("s".to_string(), ResolvedCallArg::Sym(b'z'));
    assert_eq!(e.lookup(&"s".to_string()), Some(&ResolvedCallArg::Sym(b'z')));
    assert_eq!(Environment::new().lookup(&"s".to_string()), None);
}

#[test]
fn selector_elem_literal_and_bound_symbol() {
    assert_eq!(SelectorElem::Sym(3).resolve(&env()), Ok(3));
    assert_eq!(id("s").resolve(&env()), Ok(b'x'));
}

#[test]
fn selector_elem_bound_to_selector_written_as_one_element() {
    assert_eq!(id("one").resolve(&env()), Ok(b'y'));
    let mut e = Environment::new();
    e.bind("z".to_string(), ResolvedCallArg::Sel(ResolvedSelector::Elem(0)));
    assert_eq!(id("z").resolve(&e), Ok(0));
}

#[test]
fn selector_elem_bound_to_any_other_selector_is_ill_typed() {
    let mut e = Environment::new();
    e.bind("r".to_string(), ResolvedCallArg::Sel(ResolvedSelector::Range(4, 4)));
    e.bind("all".to_string(), ResolvedCallArg::Sel(ResolvedSelector::All));
    e.bind("wide".to_string(), ResolvedCallArg::Sel(ResolvedSelector::Range(3, 9)));
    e.bind(
        "or".to_string(),
        ResolvedCallArg::Sel(ResolvedSelector::Or(vec![ResolvedSelector::Elem(4)])),
    );
    e.bind(
        "not".to_string(),
        ResolvedCallArg::Sel(ResolvedSelector::Not(Box::new(ResolvedSelector::Elem(4)))),
    );
    for name in ["r", "all", "wide", "or", "not"] {
        assert_eq!(
            id(name).resolve(&e),
            Err(CompileError::UnboundOrIllTypedParameter(name.to_string())),
            "{}",
            name
        );
    }
}

#[test]
fn selector_with_an_ill_bound_leaf_fails_as_a_whole() {
    let mut e = Environment::new();
    e.bind("r".to_string(), ResolvedCallArg::Sel(ResolvedSelector::Range(5, 5)));
    e.bind("ok".to_string(), ResolvedCallArg::Sel(ResolvedSelector::Elem(5)));
    let fault = Err(CompileError::UnboundOrIllTypedParameter("r".to_string()));
    assert_eq!(Selector::Elem(id("r")).resolve(&e), fault);
    assert_eq!(Selector::Range(SelectorElem::Sym(1), id("r")).resolve(&e), fault);
    assert_eq!(Selector::Range(id("r"), SelectorElem::Sym(9)).resolve(&e), fault);
    let deep = Selector::Or(vec![
        Selector::All,
        Selector::Not(Box::new(Selector::And(vec![Selector::Elem(id("ok")), Selector::Elem(id("r"))]))),
    ]);
    assert_eq!(deep.resolve(&e), fault);
    let fine = Selector::Or(vec![
        Selector::All,
        Selector::Not(Box::new(Selector::And(vec![Selector::Elem(id("ok"))]))),
    ]);
    assert!(fine.resolve(&e).is_ok());
}

#[test]
fn call_arg_keeps_the_way_a_selector_is_written() {
    let e = env();
    let range = CallArg::Sel(Selector::Range(id("s"), id("s"))).resolve(&e).unwrap();
    assert!(matches!(range, ResolvedCallArg::Sel(ResolvedSelector::Range(b'x', b'x'))));
    let elem = CallArg::Sel(Selector::Elem(id("one"))).resolve(&e).unwrap();
    assert!(matches!(elem, ResolvedCallArg::Sel(ResolvedSelector::Elem(b'y'))));
    let mut inner = Environment::new();
    inner.bind("a".to_string(), range);
    inner.bind("b".to_string(), elem);
    assert_eq!(
        id("a").resolve(&inner),
        Err(CompileError::UnboundOrIllTypedParameter("a".to_string()))
    );
    assert_eq!(id("b").resolve(&inner), Ok(b'y'));
}

#[test]
fn selector_elem_unbound_or_ill_typed() {
    let unbound = CompileError::UnboundOrIllTypedParameter("zz".to_string());
    assert_eq!(id("zz").resolve(&env()), Err(unbound));
    let many = CompileError::UnboundOrIllTypedParameter("many".to_string());
    assert_eq!(id("many").resolve(&env()), Err(many));
    let chain = CompileError::UnboundOrIllTypedParameter("k".to_string());
    assert_eq!(id("k").resolve(&env()), Err(chain));
}

#[test]
fn selector_resolves_structurally() {
    let sel = Selector::Or(vec![
        Selector::Elem(id("s")),
        Selector::Range(SelectorElem::Sym(b'a'), id("one")),
        Selector::Not(Box::new(Selector::All)),
        Selector::And(vec![Selector::All, Selector::Elem(SelectorElem::Sym(0))]),
    ]);
    let got = sel.resolve(&env()).unwrap();
    for c in 0..=255u8 {
        let expected = c == b'x' || (b'a' <= c && c <= b'y') || c == 0;
        assert_eq!(got.contains(c), expected, "at {}", c);
    }
    assert!(matches!(got, ResolvedSelector::Or(ref v) if v.len() == 4));
}

#[test]
fn selector_reports_the_first_fault_in_order() {
    let sel = Selector::And(vec![
        Selector::All,
        Selector::Elem(id("first")),
        Selector::Elem(id("second")),
    ]);
    assert_eq!(
        sel.resolve(&env()),
        Err(CompileError::UnboundOrIllTypedParameter("first".to_string()))
    );
    let range = Selector::Range(id("many"), id("zz"));
    assert_eq!(
        range.resolve(&env()),
        Err(CompileError::UnboundOrIllTypedParameter("many".to_string()))
    );
    let inner = Selector::Not(Box::new(Selector::Or(vec![Selector::Elem(id("k"))])));
    assert_eq!(
        inner.resolve(&env()),
        Err(CompileError::UnboundOrIllTypedParameter("k".to_string()))
    );
}

#[test]
fn primitive_resolution() {
    assert_eq!(Primitive::Movel.resolve(&env()), Ok(ResolvedPrimitive::Movel));
    assert_eq!(Primitive::Mover.resolve(&env()), Ok(ResolvedPrimitive::Mover));
    assert_eq!(Primitive::Print(SelectorElem::Sym(4)).resolve(&env()), Ok(ResolvedPrimitive::Print(4)));
    assert_eq!(Primitive::Print(id("s")).resolve(&env()), Ok(ResolvedPrimitive::Print(b'x')));
}

#[test]
fn primitive_print_needs_a_symbol() {
    assert_eq!(
        Primitive::Print(id("one")).resolve(&env()),
        Err(CompileError::TypeMismatch("one".to_string()))
    );
    assert_eq!(
        Primitive::Print(id("k")).resolve(&env()),
        Err(CompileError::TypeMismatch("k".to_string()))
    );
    assert_eq!(
        Primitive::Print(id("zz")).resolve(&env()),
        Err(CompileError::TypeMismatch("zz".to_string()))
    );
}

#[test]
fn call_arg_substitutes_bound_names_verbatim() {
    assert_eq!(CallArg::Id("s".to_string()).resolve(&env()), Ok(ResolvedCallArg::Sym(b'x')));
    assert_eq!(
        CallArg::Id("many".to_string()).resolve(&env()),
        Ok(ResolvedCallArg::Sel(ResolvedSelector::Range(1, 9)))
    );
    assert_eq!(
        CallArg::Id("k".to_string()).resolve(&env()),
        Ok(ResolvedCallArg::Chain(ResolvedChain {
            parts: vec![ResolvedChainElem::Prim(ResolvedPrimitive::Mover), ResolvedChainElem::Accept],
        }))
    );
    assert_eq!(CallArg::Sym(9).resolve(&env()), Ok(ResolvedCallArg::Sym(9)));
}

#[test]
fn call_arg_unbound_name_is_a_call_without_arguments() {
    assert_eq!(
        CallArg::Id("other".to_string()).resolve(&env()),
        Ok(ResolvedCallArg::Chain(ResolvedChain {
            parts: vec![ResolvedChainElem::Call { id: "other".to_string(), args: vec![] }],
        }))
    );
}

#[test]
fn chain_resolution_flattens_and_substitutes() {
    let chain = Chain {
        parts: vec![
            ChainElem::Prim(Primitive::Print(id("s"))),
            ChainElem::Call {
                id: "f".to_string(),
                args: vec![
                    CallArg::Sel(Selector::Elem(id("one"))),
                    CallArg::Chain(Chain {
                        parts: vec![
                            ChainElem::Prim(Primitive::Movel),
                            ChainElem::Call { id: "g".to_string(), args: vec![CallArg::Id("k".to_string())] },
                        ],
                    }),
                ],
            },
        ],
    };
    let expected = ResolvedChain {
        parts: vec![
            ResolvedChainElem::Prim(ResolvedPrimitive::Print(b'x')),
            ResolvedChainElem::Call {
                id: "f".to_string(),
                args: vec![ResolvedCallArg::Sel(ResolvedSelector::Elem(b'y'))],
            },
            ResolvedChainElem::Prim(ResolvedPrimitive::Movel),
            ResolvedChainElem::Call { id: "g".to_string(), args: vec![] },
            ResolvedChainElem::Prim(ResolvedPrimitive::Mover),
            ResolvedChainElem::Accept,
        ],
    };
    assert_eq!(chain.resolve(&env()), Ok(expected));
}

#[test]
fn chain_resolution_fails_as_a_whole() {
    let chain = Chain {
        parts: vec![
            ChainElem::Prim(Primitive::Movel),
            ChainElem::Call {
                id: "f".to_string(),
                args: vec![CallArg::Sym(1), CallArg::Sel(Selector::Elem(id("many")))],
            },
            ChainElem::Prim(Primitive::Print(id("zz"))),
        ],
    };
    assert_eq!(
        chain.resolve(&env()),
        Err(CompileError::UnboundOrIllTypedParameter("many".to_string()))
    );
    let later = Chain {
        parts: vec![ChainElem::Accept, ChainElem::Prim(Primitive::Print(id("zz")))],
    };
    assert_eq!(later.resolve(&env()), Err(CompileError::TypeMismatch("zz".to_string())));
}

#[test]
fn chain_elem_resolution() {
    assert_eq!(ChainElem::Accept.resolve(&env()), Ok(ResolvedChainElem::Accept));
    assert_eq!(ChainElem::Reject.resolve(&env()), Ok(ResolvedChainElem::Reject));
    let call = ChainElem::Call {
        id: "s".to_string(),
        args: vec![CallArg::Id("s".to_string())],
    };
    assert_eq!(
        call.resolve(&env()),
        Ok(ResolvedChainElem::Call { id: "s".to_string(), args: vec![ResolvedCallArg::Sym(b'x')] })
    );
}
