use turing_lang::resolved::{
    ResolvedCallArg, ResolvedChain, ResolvedChainElem, ResolvedPrimitive, ResolvedSelector,
};

fn call(id: &str, args: Vec<ResolvedCallArg>) -> ResolvedChainElem {
    ResolvedChainElem::Call { id: id.to_string(), args }
}

fn prim(p: ResolvedPrimitive) -> ResolvedChainElem {
    ResolvedChainElem::Prim(p)
}

fn chain(parts: Vec<ResolvedChainElem>) -> ResolvedChain {
    ResolvedChain { parts }
}

fn arg(parts: Vec<ResolvedChainElem>) -> ResolvedCallArg {
    ResolvedCallArg::Chain(chain(parts))
}

fn is_flat(c: &ResolvedChain) -> bool {
    c.parts.iter().all(|p| match p {
        ResolvedChainElem::Call { args, .. } => !matches!(args.last(), Some(ResolvedCallArg::Chain(_))),
        _ => true,
    })
}

fn splice(a: &ResolvedChain, b: &ResolvedChain) -> ResolvedChain {
    let mut parts = a.chained().parts;
    parts.extend(b.chained().parts);
    chain(parts)
}

fn nested() -> ResolvedChain {
    chain(vec![
        prim(ResolvedPrimitive::Mover),
        call(
            "f",
            vec![
                ResolvedCallArg::Sym(7),
                arg(vec![
                    prim(ResolvedPrimitive::Print(1)),
                    call("g", vec![arg(vec![prim(ResolvedPrimitive::Movel), ResolvedChainElem::Accept])]),
                ]),
            ],
        ),
    ])
}

#[test]
fn flatten_splices_trailing_chain_after_the_call() {
    let flat = nested().into_chained_repr();
    let expected = chain(vec![
        prim(ResolvedPrimitive::Mover),
        call("f", vec![ResolvedCallArg::Sym(7)]),
        prim(ResolvedPrimitive::Print(1)),
        call("g", vec![]),
        prim(ResolvedPrimitive::Movel),
        ResolvedChainElem::Accept,
    ]);
    assert_eq!(flat, expected);
    assert!(is_flat(&flat));
}

#[test]
fn flatten_takes_every_trailing_chain_in_written_order() {
    let c = chain(vec![call(
        "f",
        vec![
            ResolvedCallArg::Sym(1),
            arg(vec![prim(ResolvedPrimitive::Movel)]),
            arg(vec![prim(ResolvedPrimitive::Mover)]),
        ],
    )]);
    let expected = chain(vec![
        call("f", vec![ResolvedCallArg::Sym(1)]),
        prim(ResolvedPrimitive::Movel),
        prim(ResolvedPrimitive::Mover),
    ]);
    assert_eq!(c.into_chained_repr(), expected);
}

#[test]
fn flatten_keeps_a_chain_that_is_not_last() {
    let c = chain(vec![call(
        "f",
        vec![arg(vec![prim(ResolvedPrimitive::Movel)]), ResolvedCallArg::Sym(1)],
    )]);
    let same = chain(vec![call(
        "f",
        vec![arg(vec![prim(ResolvedPrimitive::Movel)]), ResolvedCallArg::Sym(1)],
    )]);
    assert_eq!(c.into_chained_repr(), same);
}

#[test]
fn flatten_of_a_flat_chain_changes_nothing() {
    let flat = chain(vec![
        prim(ResolvedPrimitive::Print(9)),
        call("f", vec![ResolvedCallArg::Sel(ResolvedSelector::Range(1, 3))]),
        ResolvedChainElem::Reject,
    ]);
    assert!(is_flat(&flat));
    assert_eq!(flat.chained(), flat);
    assert_eq!(chain(vec![]).into_chained_repr(), chain(vec![]));
}

#[test]
fn flatten_is_idempotent() {
    let once = nested().into_chained_repr();
    let twice = once.chained();
    assert_eq!(once, twice);
}

#[test]
fn flatten_empty_trailing_chain_disappears() {
    let c = chain(vec![call("f", vec![ResolvedCallArg::Sym(1), arg(vec![])])]);
    assert_eq!(c.into_chained_repr(), chain(vec![call("f", vec![ResolvedCallArg::Sym(1)])]));
}

#[test]
fn splice_is_associative() {
    let a = nested();
    let b = chain(vec![call("h", vec![arg(vec![prim(ResolvedPrimitive::Mover)])])]);
    let c = chain(vec![prim(ResolvedPrimitive::Print(3)), ResolvedChainElem::Reject]);
    let left = splice(&splice(&a, &b), &c);
    let right = splice(&a, &splice(&b, &c));
    assert_eq!(left, right);
    assert_eq!(left.parts.len(), 6 + 2 + 2);
}

#[test]
fn chains_compare_selectors_by_membership() {
    let a = chain(vec![call(
        "f",
        vec![ResolvedCallArg::Sel(ResolvedSelector::Or(vec![
            ResolvedSelector::Elem(1),
            ResolvedSelector::Elem(2),
        ]))],
    )]);
    let b = chain(vec![call("f", vec![ResolvedCallArg::Sel(ResolvedSelector::Range(1, 2))])]);
    let c = chain(vec![call("f", vec![ResolvedCallArg::Sel(ResolvedSelector::Range(1, 3))])]);
    let d = chain(vec![call("g", vec![ResolvedCallArg::Sel(ResolvedSelector::Range(1, 2))])]);
    assert_eq!(a, b);
    assert_ne!(a, c);
    assert_ne!(a, d);
    assert_ne!(a, chain(vec![]));
}

#[test]
fn arguments_of_different_kinds_differ() {
    assert_ne!(ResolvedCallArg::Sym(1), ResolvedCallArg::Sel(ResolvedSelector::Elem(1)));
    assert_ne!(ResolvedCallArg::Sym(1), ResolvedCallArg::Sym(2));
    assert_eq!(ResolvedCallArg::Sym(1), ResolvedCallArg::Sym(1));
    assert_ne!(arg(vec![]), ResolvedCallArg::Sym(0));
    assert_ne!(prim(ResolvedPrimitive::Movel), prim(ResolvedPrimitive::Mover));
    assert_ne!(ResolvedChainElem::Accept, ResolvedChainElem::Reject);
    assert_eq!(nested().clone(), nested());
}
