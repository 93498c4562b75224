use turing_lang::concrete::{Branch as Flat, Call, Machine, Primitive as Action, Selector as Guard, State};
use turing_lang::error::CompileError;
use turing_lang::execution::{run, Status};
use turing_lang::resolved::{
    ResolvedCallArg, ResolvedChain, ResolvedChainElem, ResolvedPrimitive as P, ResolvedSelector,
};
use turing_lang::skeleton::{
    Branch, CallArg, Chain, ChainElem, Primitive, Selector, SelectorElem, StateDef,
};
use turing_lang::specialize::{compile, ending, materialize, Next, Specializer};
use turing_lang::tape::Tape;

fn build(
    templates: Vec<StateDef>,
    entry: String,
    limit: usize,
) -> Result<turing_lang::concrete::Machine, turing_lang::error::CompileError> {
    compile(templates, entry, vec![], limit)
}

fn s(text: &str) -> String {
    text.to_string()
}

fn def(name: &str, params: &[&str], branches: Vec<Branch>) -> StateDef {
    StateDef { name: s(name), params: params.iter().map(|p| s(p)).collect(), branches }
}

fn on(sel: Selector, parts: Vec<ChainElem>) -> Branch {
    Branch { sel, chain: Chain { parts } }
}

fn call(name: &str, args: Vec<CallArg>) -> ChainElem {
    ChainElem::Call { id: s(name), args }
}

fn sym(c: u8) -> Selector {
    Selector::Elem(SelectorElem::Sym(c))
}

fn print(c: u8) -> ChainElem {
    ChainElem::Prim(Primitive::Print(SelectorElem::Sym(c)))
}

fn increment_templates() -> Vec<StateDef> {
    vec![
        def(
            "main",
            &[],
            vec![
                on(sym(b'1'), vec![print(b'0'), ChainElem::Prim(Primitive::Movel), call("carry", vec![])]),
                on(Selector::All, vec![ChainElem::Prim(Primitive::Mover), call("main", vec![])]),
            ],
        ),
        def(
            "carry",
            &[],
            vec![
                on(sym(b'1'), vec![print(b'0'), ChainElem::Prim(Primitive::Movel), call("carry", vec![])]),
                on(Selector::All, vec![print(b'1'), ChainElem::Accept]),
            ],
        ),
    ]
}

fn increment_machine() -> Machine {
    Machine {
        states: vec![
            State {
                branches: vec![
                    Flat {
                        sel: Guard::Chars(vec![b'1']),
                        primitives: vec![Action::Print(b'0'), Action::Movel],
                        call: Call::State(1),
                    },
                    Flat { sel: Guard::All, primitives: vec![Action::Mover], call: Call::State(0) },
                ],
            },
            State {
                branches: vec![
                    Flat {
                        sel: Guard::Chars(vec![b'1']),
                        primitives: vec![Action::Print(b'0'), Action::Movel],
                        call: Call::State(1),
                    },
                    Flat { sel: Guard::All, primitives: vec![Action::Print(b'1')], call: Call::Accept },
                ],
            },
        ],
    }
}

#[test]
fn compile_plain_templates_gives_the_expected_machine() {
    assert_eq!(build(increment_templates(), s("main"), 16), Ok(increment_machine()));
}

#[test]
fn compiled_machine_runs_the_increment_scenario() {
    let machine = build(increment_templates(), s("main"), 16).unwrap();
    let out = run(&machine, 0, Tape::from("1011"), 100);
    assert_eq!(out.status, Status::Accepted);
    let cells: Vec<u8> = (0..4).map(|p| out.tape.get(p)).collect();
    assert_eq!(cells, b"0011".to_vec());
    assert_eq!(out.tape.get(-1), b'1');
}

fn passing_templates() -> Vec<StateDef> {
    vec![
        def(
            "main",
            &[],
            vec![on(
                Selector::All,
                vec![call(
                    "f",
                    vec![
                        CallArg::Sym(b'a'),
                        CallArg::Chain(Chain {
                            parts: vec![ChainElem::Prim(Primitive::Movel), ChainElem::Accept],
                        }),
                    ],
                )],
            )],
        ),
        def(
            "f",
            &["x", "k"],
            vec![
                on(
                    Selector::Elem(SelectorElem::Id(s("x"))),
                    vec![
                        ChainElem::Prim(Primitive::Print(SelectorElem::Id(s("x")))),
                        ChainElem::Prim(Primitive::Mover),
                        call("f", vec![CallArg::Sym(b'b'), CallArg::Id(s("k"))]),
                    ],
                ),
                on(Selector::All, vec![ChainElem::Reject]),
            ],
        ),
    ]
}

#[test]
fn compile_binds_parameters_and_reuses_equal_instances() {
    let expected = Machine {
        states: vec![
            State { branches: vec![Flat { sel: Guard::All, primitives: vec![], call: Call::State(1) }] },
            State {
                branches: vec![
                    Flat {
                        sel: Guard::Chars(vec![b'a']),
                        primitives: vec![Action::Print(b'a'), Action::Mover],
                        call: Call::State(2),
                    },
                    Flat { sel: Guard::All, primitives: vec![], call: Call::Reject },
                ],
            },
            State {
                branches: vec![
                    Flat {
                        sel: Guard::Chars(vec![b'b']),
                        primitives: vec![Action::Print(b'b'), Action::Mover],
                        call: Call::State(2),
                    },
                    Flat { sel: Guard::All, primitives: vec![], call: Call::Reject },
                ],
            },
        ],
    };
    assert_eq!(build(passing_templates(), s("main"), 16), Ok(expected));
}

#[test]
fn compile_written_flat_or_nested_is_the_same() {
    let mut flat = passing_templates();
    flat[0] = def(
        "main",
        &[],
        vec![on(
            Selector::All,
            vec![
                call("f", vec![CallArg::Sym(b'a')]),
                ChainElem::Prim(Primitive::Movel),
                ChainElem::Accept,
            ],
        )],
    );
    assert_eq!(
        build(flat, s("main"), 16),
        build(passing_templates(), s("main"), 16)
    );
}

#[test]
fn compile_mutual_recursion_closes_the_cycle() {
    let templates = vec![
        def("ping", &[], vec![on(Selector::All, vec![ChainElem::Prim(Primitive::Mover), call("pong", vec![])])]),
        def("pong", &[], vec![on(Selector::All, vec![ChainElem::Prim(Primitive::Movel), call("ping", vec![])])]),
    ];
    let expected = Machine {
        states: vec![
            State { branches: vec![Flat { sel: Guard::All, primitives: vec![Action::Mover], call: Call::State(1) }] },
            State { branches: vec![Flat { sel: Guard::All, primitives: vec![Action::Movel], call: Call::State(0) }] },
        ],
    };
    assert_eq!(build(templates, s("ping"), 2), Ok(expected));
}

#[test]
fn compile_chain_of_primitives_stays_in_its_state() {
    let templates = vec![
        def("a", &[], vec![on(Selector::All, vec![call("b", vec![])])]),
        def("b", &[], vec![on(Selector::All, vec![ChainElem::Prim(Primitive::Mover)]), on(sym(1), vec![])]),
    ];
    let machine = build(templates, s("a"), 8).unwrap();
    assert_eq!(machine.states.len(), 2);
    assert_eq!(machine.states[1].branches[0].call, Call::State(1));
    assert_eq!(machine.states[1].branches[0].primitives, vec![Action::Mover]);
    assert_eq!(machine.states[1].branches[1].call, Call::State(1));
    assert_eq!(machine.states[1].branches[1].sel, Guard::Chars(vec![1]));
}

#[test]
fn compile_ignores_what_follows_accept() {
    let templates = vec![def(
        "a",
        &[],
        vec![on(Selector::All, vec![print(1), ChainElem::Accept, print(2), call("nowhere", vec![])])],
    )];
    let machine = build(templates, s("a"), 8).unwrap();
    assert_eq!(machine.states[0].branches[0].primitives, vec![Action::Print(1)]);
    assert_eq!(machine.states[0].branches[0].call, Call::Accept);
}

#[test]
fn compile_keeps_branch_order_and_overlapping_selectors() {
    let templates = vec![def(
        "a",
        &[],
        vec![
            on(Selector::Range(SelectorElem::Sym(3), SelectorElem::Sym(5)), vec![ChainElem::Reject]),
            on(Selector::Range(SelectorElem::Sym(4), SelectorElem::Sym(6)), vec![ChainElem::Accept]),
        ],
    )];
    let machine = build(templates, s("a"), 8).unwrap();
    assert_eq!(machine.states[0].branches[0].sel, Guard::Chars(vec![3, 4, 5]));
    assert_eq!(machine.states[0].branches[1].sel, Guard::Chars(vec![4, 5, 6]));
    let mut tape = Tape::new();
    tape.set(0, 4);
    assert_eq!(run(&machine, 0, tape, 3).status, Status::Rejected);
}

#[test]
fn compile_unknown_entry() {
    assert_eq!(
        build(increment_templates(), s("nope"), 16),
        Err(CompileError::UnknownState(s("nope")))
    );
}

#[test]
fn compile_unknown_call_target() {
    let templates = vec![def("a", &[], vec![on(Selector::All, vec![call("nowhere", vec![])])])];
    assert_eq!(build(templates, s("a"), 8), Err(CompileError::UnknownState(s("nowhere"))));
}

#[test]
fn compile_arity_mismatch() {
    let templates = vec![
        def("a", &[], vec![on(Selector::All, vec![call("f", vec![CallArg::Sym(1)])])]),
        def("f", &["x", "k"], vec![]),
    ];
    assert_eq!(build(templates, s("a"), 8), Err(CompileError::ArityMismatch(s("f"))));
    assert_eq!(
        build(passing_templates(), s("f"), 8),
        Err(CompileError::ArityMismatch(s("f")))
    );
}

#[test]
fn compile_resolution_faults_come_through() {
    let unbound = vec![def(
        "a",
        &[],
        vec![on(Selector::Elem(SelectorElem::Id(s("x"))), vec![ChainElem::Accept])],
    )];
    assert_eq!(
        build(unbound, s("a"), 8),
        Err(CompileError::UnboundOrIllTypedParameter(s("x")))
    );
    let mismatch = vec![
        def("a", &[], vec![on(Selector::All, vec![call("p", vec![CallArg::Sel(Selector::All)])])]),
        def(
            "p",
            &["x"],
            vec![on(Selector::All, vec![ChainElem::Prim(Primitive::Print(SelectorElem::Id(s("x"))))])],
        ),
    ];
    assert_eq!(build(mismatch, s("a"), 8), Err(CompileError::TypeMismatch(s("x"))));
}

fn runaway() -> Vec<StateDef> {
    vec![
        def(
            "main",
            &[],
            vec![on(
                Selector::All,
                vec![call("more", vec![CallArg::Chain(Chain { parts: vec![ChainElem::Accept] })])],
            )],
        ),
        def(
            "more",
            &["k"],
            vec![on(
                Selector::All,
                vec![call(
                    "more",
                    vec![CallArg::Chain(Chain {
                        parts: vec![
                            ChainElem::Prim(Primitive::Mover),
                            call("more", vec![CallArg::Id(s("k"))]),
                        ],
                    })],
                )],
            )],
        ),
    ]
}

#[test]
fn compile_runaway_template_explodes() {
    assert_eq!(build(runaway(), s("main"), 16), Err(CompileError::SpecializationExplosion));
    assert_eq!(build(runaway(), s("main"), 1), Err(CompileError::SpecializationExplosion));
}

#[test]
fn compile_with_no_room_explodes_at_once() {
    assert_eq!(
        build(increment_templates(), s("main"), 0),
        Err(CompileError::SpecializationExplosion)
    );
    assert_eq!(
        build(increment_templates(), s("main"), 1),
        Err(CompileError::SpecializationExplosion)
    );
    assert_eq!(build(increment_templates(), s("main"), 2), Ok(increment_machine()));
}

#[test]
fn compile_first_template_of_a_name_counts() {
    let templates = vec![
        def("a", &[], vec![on(Selector::All, vec![ChainElem::Accept])]),
        def("a", &[], vec![on(Selector::All, vec![ChainElem::Reject])]),
    ];
    let machine = build(templates, s("a"), 4).unwrap();
    assert_eq!(machine.states[0].branches[0].call, Call::Accept);
}

#[test]
fn specialize_twice_gives_the_same_index_and_builds_nothing() {
    let mut sp = Specializer::new(passing_templates(), 16);
    assert_eq!(sp.state_count(), 0);
    let k = || {
        ResolvedCallArg::Chain(ResolvedChain { parts: vec![ResolvedChainElem::Accept] })
    };
    let first = sp.specialize(s("f"), vec![ResolvedCallArg::Sym(b'q'), k()]);
    assert_eq!(first, Ok(0));
    let count = sp.state_count();
    assert_eq!(count, 2);
    let again = sp.specialize(s("f"), vec![ResolvedCallArg::Sym(b'q'), k()]);
    assert_eq!(again, Ok(0));
    assert_eq!(sp.state_count(), count);
    let inner = sp.specialize(s("f"), vec![ResolvedCallArg::Sym(b'b'), k()]);
    assert_eq!(inner, Ok(1));
    assert_eq!(sp.state_count(), count);
    let main = sp.specialize(s("main"), vec![]);
    assert_eq!(main, Ok(2));
    assert_eq!(sp.state_count(), 5);
    assert_eq!(sp.machine().states.len(), 5);
}

#[test]
fn specialize_compares_selector_arguments_by_membership() {
    let templates = vec![def("t", &["sel"], vec![on(Selector::All, vec![ChainElem::Accept])])];
    let mut sp = Specializer::new(templates, 16);
    let a = sp.specialize(
        s("t"),
        vec![ResolvedCallArg::Sel(ResolvedSelector::Or(vec![
            ResolvedSelector::Elem(1),
            ResolvedSelector::Elem(2),
        ]))],
    );
    let b = sp.specialize(s("t"), vec![ResolvedCallArg::Sel(ResolvedSelector::Range(1, 2))]);
    let c = sp.specialize(s("t"), vec![ResolvedCallArg::Sel(ResolvedSelector::Range(1, 3))]);
    assert_eq!(a, Ok(0));
    assert_eq!(b, Ok(0));
    assert_eq!(c, Ok(1));
    assert_eq!(sp.state_count(), 2);
}

#[test]
fn specialize_leaves_nothing_behind_after_a_fault() {
    let mut templates = increment_templates();
    templates.push(def(
        "bad",
        &[],
        vec![
            on(Selector::All, vec![call("main", vec![])]),
            on(Selector::All, vec![call("worse", vec![])]),
        ],
    ));
    templates.push(def("worse", &[], vec![on(Selector::All, vec![call("nowhere", vec![])])]));
    let mut sp = Specializer::new(templates, 16);
    assert_eq!(sp.specialize(s("carry"), vec![]), Ok(0));
    assert_eq!(sp.state_count(), 1);
    assert_eq!(sp.specialize(s("bad"), vec![]), Err(CompileError::UnknownState(s("nowhere"))));
    assert_eq!(sp.state_count(), 1);
    assert_eq!(sp.specialize(s("main"), vec![]), Ok(1));
    assert_eq!(sp.state_count(), 2);
    let machine = sp.into_machine();
    assert_eq!(machine.states[1].branches[0].call, Call::State(0));
    assert_eq!(machine.states[1].branches[1].call, Call::State(1));
}

#[test]
fn materialize_lists_symbols_in_rising_order() {
    assert_eq!(materialize(&ResolvedSelector::All), Guard::All);
    assert_eq!(materialize(&ResolvedSelector::Range(0, 255)), Guard::All);
    assert_eq!(materialize(&ResolvedSelector::And(vec![])), Guard::All);
    assert_eq!(materialize(&ResolvedSelector::Or(vec![])), Guard::Chars(vec![]));
    assert_eq!(
        materialize(&ResolvedSelector::Or(vec![
            ResolvedSelector::Elem(9),
            ResolvedSelector::Range(2, 4),
            ResolvedSelector::Elem(3),
        ])),
        Guard::Chars(vec![2, 3, 4, 9])
    );
    let all_but_zero = materialize(&ResolvedSelector::Not(Box::new(ResolvedSelector::Elem(0))));
    assert_eq!(all_but_zero, Guard::Chars((1..=255u8).collect()));
}

#[test]
fn ending_reads_leading_primitives_and_the_deciding_element() {
    let chain = ResolvedChain {
        parts: vec![
            ResolvedChainElem::Prim(P::Print(5)),
            ResolvedChainElem::Prim(P::Movel),
            ResolvedChainElem::Call { id: s("f"), args: vec![ResolvedCallArg::Sym(1)] },
            ResolvedChainElem::Prim(P::Mover),
            ResolvedChainElem::Reject,
        ],
    };
    let (prims, next) = ending(&chain);
    assert_eq!(prims, vec![Action::Print(5), Action::Movel]);
    match next {
        Next::Goto(target) => {
            assert_eq!(target.name, s("f"));
            assert_eq!(
                target.args,
                vec![
                    ResolvedCallArg::Sym(1),
                    ResolvedCallArg::Chain(ResolvedChain {
                        parts: vec![ResolvedChainElem::Prim(P::Mover), ResolvedChainElem::Reject],
                    }),
                ]
            );
        }
        other => panic!("unexpected ending {:?}", other),
    }
    let (none, stay) = ending(&ResolvedChain { parts: vec![] });
    assert_eq!(none, vec![]);
    assert!(matches!(stay, Next::Stay));
    let (_, accept) = ending(&ResolvedChain { parts: vec![ResolvedChainElem::Accept] });
    assert!(matches!(accept, Next::Accept));
}

#[test]
fn cloned_templates_compile_to_the_same_machine() {
    let templates = passing_templates();
    let copies: Vec<StateDef> = templates.iter().map(|t| t.clone()).collect();
    assert_eq!(copies.len(), templates.len());
    assert_eq!(copies[1].name, "f");
    assert_eq!(copies[1].params, vec![s("x"), s("k")]);
    assert_eq!(build(copies, s("main"), 16), build(templates, s("main"), 16));
}

#[test]
fn compile_with_entry_arguments() {
    let k = ResolvedCallArg::Chain(ResolvedChain {
        parts: vec![ResolvedChainElem::Prim(P::Movel), ResolvedChainElem::Accept],
    });
    let machine = compile(passing_templates(), s("f"), vec![ResolvedCallArg::Sym(b'b'), k], 4).unwrap();
    let expected = Machine {
        states: vec![State {
            branches: vec![
                Flat {
                    sel: Guard::Chars(vec![b'b']),
                    primitives: vec![Action::Print(b'b'), Action::Mover],
                    call: Call::State(0),
                },
                Flat { sel: Guard::All, primitives: vec![], call: Call::Reject },
            ],
        }],
    };
    assert_eq!(machine, expected);
    assert!(machine.is_closed());
    let open = Machine {
        states: vec![State {
            branches: vec![Flat { sel: Guard::All, primitives: vec![], call: Call::State(1) }],
        }],
    };
    assert!(!open.is_closed());
    assert!(Machine { states: vec![] }.is_closed());
}

fn bare(parts: Vec<ChainElem>) -> Vec<Branch> {
    vec![on(Selector::All, parts)]
}

#[test]
fn compile_calls_in_sequence_run_one_after_another() {
    let templates = vec![
        def("main", &[], bare(vec![call("right2", vec![]), call("right2", vec![]), ChainElem::Accept])),
        def(
            "right2",
            &[],
            bare(vec![ChainElem::Prim(Primitive::Mover), ChainElem::Prim(Primitive::Mover)]),
        ),
    ];
    let machine = build(templates, s("main"), 8).unwrap();
    let expected = Machine {
        states: vec![
            State { branches: vec![Flat { sel: Guard::All, primitives: vec![], call: Call::State(1) }] },
            State {
                branches: vec![Flat {
                    sel: Guard::All,
                    primitives: vec![Action::Mover, Action::Mover],
                    call: Call::State(2),
                }],
            },
            State {
                branches: vec![Flat {
                    sel: Guard::All,
                    primitives: vec![Action::Mover, Action::Mover],
                    call: Call::Accept,
                }],
            },
        ],
    };
    assert_eq!(machine, expected);
    let out = run(&machine, 0, Tape::new(), 10);
    assert_eq!(out.status, Status::Accepted);
    assert_eq!(out.pos, 4);
}

#[test]
fn compile_callee_goes_on_with_what_follows_the_call() {
    let templates = vec![
        def("main", &[], bare(vec![call("skip", vec![CallArg::Sym(b'1')]), print(b'e'), ChainElem::Accept])),
        def(
            "skip",
            &["x"],
            vec![
                on(
                    Selector::Elem(SelectorElem::Id(s("x"))),
                    vec![ChainElem::Prim(Primitive::Mover), call("skip", vec![CallArg::Id(s("x"))])],
                ),
                on(Selector::All, vec![]),
            ],
        ),
    ];
    let machine = build(templates, s("main"), 8).unwrap();
    let expected = Machine {
        states: vec![
            State { branches: vec![Flat { sel: Guard::All, primitives: vec![], call: Call::State(1) }] },
            State {
                branches: vec![
                    Flat {
                        sel: Guard::Chars(vec![b'1']),
                        primitives: vec![Action::Mover],
                        call: Call::State(1),
                    },
                    Flat { sel: Guard::All, primitives: vec![Action::Print(b'e')], call: Call::Accept },
                ],
            },
        ],
    };
    assert_eq!(machine, expected);
    let out = run(&machine, 0, Tape::from("110"), 20);
    assert_eq!(out.status, Status::Accepted);
    assert_eq!(out.pos, 2);
    let cells: Vec<u8> = (0..3).map(|p| out.tape.get(p)).collect();
    assert_eq!(cells, b"11e".to_vec());
}

#[test]
fn compile_chain_parameter_handed_on_is_run_after_the_callee() {
    let templates = vec![
        def(
            "main",
            &[],
            bare(vec![call(
                "f",
                vec![CallArg::Chain(Chain { parts: vec![print(b'z'), ChainElem::Accept] })],
            )]),
        ),
        def("f", &["k"], bare(vec![ChainElem::Prim(Primitive::Mover), call("nop", vec![CallArg::Id(s("k"))])])),
        def("nop", &[], bare(vec![])),
    ];
    let machine = build(templates, s("main"), 8).unwrap();
    let expected = Machine {
        states: vec![
            State { branches: vec![Flat { sel: Guard::All, primitives: vec![], call: Call::State(1) }] },
            State {
                branches: vec![Flat { sel: Guard::All, primitives: vec![Action::Mover], call: Call::State(2) }],
            },
            State {
                branches: vec![Flat {
                    sel: Guard::All,
                    primitives: vec![Action::Print(b'z')],
                    call: Call::Accept,
                }],
            },
        ],
    };
    assert_eq!(machine, expected);
    let out = run(&machine, 0, Tape::new(), 20);
    assert_eq!(out.status, Status::Accepted);
    assert_eq!(out.tape.get(1), b'z');
}

#[test]
fn compile_surplus_argument_must_be_a_chain() {
    let two = vec![
        def("a", &[], bare(vec![call("g", vec![CallArg::Sym(1), CallArg::Sym(2)])])),
        def("g", &["x"], bare(vec![ChainElem::Accept])),
    ];
    assert_eq!(build(two, s("a"), 8), Err(CompileError::ArityMismatch(s("g"))));
    let sym = vec![
        def("a", &[], bare(vec![call("g", vec![CallArg::Sym(1)])])),
        def("g", &[], bare(vec![ChainElem::Accept])),
    ];
    assert_eq!(build(sym, s("a"), 8), Err(CompileError::ArityMismatch(s("g"))));
    let too_many = vec![
        def(
            "a",
            &[],
            bare(vec![call("g", vec![CallArg::Sym(1), CallArg::Sym(2)]), ChainElem::Accept]),
        ),
        def("g", &["x"], bare(vec![])),
    ];
    assert_eq!(build(too_many, s("a"), 8), Err(CompileError::ArityMismatch(s("g"))));
    let fine = vec![
        def("a", &[], bare(vec![call("g", vec![CallArg::Sym(1)]), ChainElem::Accept])),
        def("g", &["x"], bare(vec![])),
    ];
    assert!(build(fine, s("a"), 8).is_ok());
}

fn picky() -> Vec<StateDef> {
    vec![def(
        "t",
        &["x"],
        vec![on(Selector::Elem(SelectorElem::Id(s("x"))), vec![ChainElem::Accept])],
    )]
}

#[test]
fn specialize_selector_argument_must_be_written_as_one_element() {
    let mut sp = Specializer::new(picky(), 8);
    assert_eq!(
        sp.specialize(s("t"), vec![ResolvedCallArg::Sel(ResolvedSelector::Range(5, 5))]),
        Err(CompileError::UnboundOrIllTypedParameter(s("x")))
    );
    assert_eq!(sp.state_count(), 0);
    assert_eq!(sp.specialize(s("t"), vec![ResolvedCallArg::Sel(ResolvedSelector::Elem(5))]), Ok(0));
    assert_eq!(sp.machine().states[0].branches[0].sel, Guard::Chars(vec![5]));
}

#[test]
fn specialize_instances_that_are_alike_share_one_state() {
    let mut sp = Specializer::new(picky(), 8);
    assert_eq!(sp.specialize(s("t"), vec![ResolvedCallArg::Sel(ResolvedSelector::Elem(5))]), Ok(0));
    assert_eq!(
        sp.specialize(s("t"), vec![ResolvedCallArg::Sel(ResolvedSelector::Range(5, 5))]),
        Ok(0)
    );
    assert_eq!(sp.state_count(), 1);
    assert_eq!(sp.specialize(s("t"), vec![ResolvedCallArg::Sym(5)]), Ok(1));
    assert_eq!(sp.state_count(), 2);
}

#[test]
fn compile_ill_typed_selector_argument_in_a_call() {
    let templates = vec![
        def(
            "main",
            &[],
            vec![on(
                Selector::All,
                vec![call(
                    "t",
                    vec![CallArg::Sel(Selector::Range(SelectorElem::Sym(5), SelectorElem::Sym(5)))],
                )],
            )],
        ),
        def("t", &["x"], vec![on(Selector::Elem(SelectorElem::Id(s("x"))), vec![ChainElem::Accept])]),
    ];
    assert_eq!(
        compile(templates, s("main"), vec![], 8),
        Err(CompileError::UnboundOrIllTypedParameter(s("x")))
    );
}
