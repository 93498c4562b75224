//! State templates as written, and how each part of one resolves in an
//! environment.

use crate::chained::{flatten, is_flat};
use crate::env::Environment;
use crate::error::{
    collect, lemma_collect_fault, lemma_collect_first_fault, lemma_collect_items,
    lemma_collect_step, CompileError, ErrorKey,
};
use crate::resolved::{
    all_of, any_of, args_key, lemma_children_symbols, parts_key, span, ArgKey,
    PartKey, ResolvedCallArg, ResolvedChain, ResolvedChainElem, ResolvedPrimitive,
    ResolvedSelector,
};
use vstd::prelude::*;

verus! {

/// A named state template with positional parameters.
#[derive(Debug)]
pub struct StateDef {
    pub name: String,
    pub params: Vec<String>,
    pub branches: Vec<Branch>,
}

/// One branch of a template: a selector and the chain to follow.
#[derive(Debug)]
pub struct Branch {
    pub sel: Selector,
    pub chain: Chain,
}

/// A symbol-set expression that may mention parameters.
#[derive(Debug)]
pub enum Selector {
    Or(Vec<Selector>),
    And(Vec<Selector>),
    Not(Box<Selector>),
    All,
    Range(SelectorElem, SelectorElem),
    Elem(SelectorElem),
}

/// A symbol, or the name of a parameter that stands for one.
#[derive(Debug)]
pub enum SelectorElem {
    Sym(u8),
    Id(String),
}

/// A sequence of primitives, calls and endings.
#[derive(Debug)]
pub struct Chain {
    pub parts: Vec<ChainElem>,
}

/// One element of a chain.
#[derive(Debug)]
pub enum ChainElem {
    Prim(Primitive),
    Call { id: String, args: Vec<CallArg> },
    Accept,
    Reject,
}

/// One tape action; the symbol to print may be a parameter.
#[derive(Debug)]
pub enum Primitive {
    Movel,
    Mover,
    Print(SelectorElem),
}

/// An argument of a call as written.
#[derive(Debug)]
pub enum CallArg {
    Sym(u8),
    Sel(Selector),
    Chain(Chain),
    Id(String),
}

impl SelectorElem {
    /// The symbol that the element stands for. A name must be bound to a
    /// symbol, or to a selector that is written as one element; bound to
    /// any other selector or to a chain, or unbound, it is a fault.
    pub open spec fn resolved(&self, env: Map<Seq<char>, ArgKey>) -> Result<u8, ErrorKey> {
        match self {
            SelectorElem::Sym(sym) => Ok(*sym),
            SelectorElem::Id(name) => if env.contains_key(name@) {
                match env[name@] {
                    ArgKey::Sym(sym) => Ok(sym),
                    ArgKey::Sel(_, written) => match written {
                        Some(sym) => Ok(sym),
                        None => Err(ErrorKey::UnboundOrIllTypedParameter(name@)),
                    },
                    ArgKey::Chain(_) => Err(ErrorKey::UnboundOrIllTypedParameter(name@)),
                }
            } else {
                Err(ErrorKey::UnboundOrIllTypedParameter(name@))
            },
        }
    }

    /// The symbol that the element stands for in `env`.
    pub fn resolve(&self, env: &Environment) -> (out: Result<u8, CompileError>)
        ensures
            match out {
                Ok(sym) => self.resolved(env@) == Ok::<u8, ErrorKey>(sym),
                Err(e) => self.resolved(env@) == Err::<u8, ErrorKey>(e@),
            },
    {
        match self {
            SelectorElem::Sym(sym) => Ok(*sym),
            SelectorElem::Id(name) => match env.lookup(name) {
                Some(arg) => match arg {
                    ResolvedCallArg::Sym(sym) => Ok(*sym),
                    ResolvedCallArg::Sel(sel) => match sel {
                        ResolvedSelector::Elem(sym) => Ok(*sym),
                        _ => Err(CompileError::UnboundOrIllTypedParameter(name.clone())),
                    },
                    ResolvedCallArg::Chain(_) => Err(
                        CompileError::UnboundOrIllTypedParameter(name.clone()),
                    ),
                },
                None => Err(CompileError::UnboundOrIllTypedParameter(name.clone())),
            },
        }
    }
}

/// How each selector of a list resolves.
pub open spec fn sels_resolved(v: Seq<Selector>, env: Map<Seq<char>, ArgKey>) -> Seq<
    Result<Set<u8>, ErrorKey>,
>
    decreases v,
{
    Seq::new(
        v.len(),
        |i: int|
            if 0 <= i < v.len() {
                v[i].resolved(env)
            } else {
                Ok(Set::empty())
            },
    )
}

/// `out` is `sel` with every name replaced by the symbol it stands for.
pub open spec fn substituted(sel: Selector, env: Map<Seq<char>, ArgKey>, out: ResolvedSelector) -> bool
    decreases sel,
{
    match sel {
        Selector::Or(v) => out is Or && out->Or_0@.len() == v@.len() && forall|i: int|
            0 <= i < v@.len() ==> substituted(#[trigger] v@[i], env, out->Or_0@[i]),
        Selector::And(v) => out is And && out->And_0@.len() == v@.len() && forall|i: int|
            0 <= i < v@.len() ==> substituted(#[trigger] v@[i], env, out->And_0@[i]),
        Selector::Not(inner) => out is Not && substituted(*inner, env, *out->Not_0),
        Selector::All => out is All,
        Selector::Range(start, end) => out is Range && start.resolved(env) == Ok::<u8, ErrorKey>(
            out->Range_0,
        ) && end.resolved(env) == Ok::<u8, ErrorKey>(out->Range_1),
        Selector::Elem(elem) => out is Elem && elem.resolved(env) == Ok::<u8, ErrorKey>(
            out->Elem_0,
        ),
    }
}

impl Selector {
    /// The symbol that the resolved selector is written as, if the selector
    /// is one element.
    pub open spec fn written(&self, env: Map<Seq<char>, ArgKey>) -> Option<u8> {
        match self {
            Selector::Elem(elem) => match elem.resolved(env) {
                Ok(sym) => Some(sym),
                Err(_) => None,
            },
            _ => None,
        }
    }

    /// The symbols that the selector admits once its parameters are
    /// substituted, or the first fault met when reading it left to right.
    pub open spec fn resolved(&self, env: Map<Seq<char>, ArgKey>) -> Result<Set<u8>, ErrorKey>
        decreases self,
    {
        match self {
            Selector::Or(v) => match collect(sels_resolved(v@, env)) {
                Ok(sets) => Ok(any_of(sets)),
                Err(e) => Err(e),
            },
            Selector::And(v) => match collect(sels_resolved(v@, env)) {
                Ok(sets) => Ok(all_of(sets)),
                Err(e) => Err(e),
            },
            Selector::Not(inner) => match inner.resolved(env) {
                Ok(symbols) => Ok(symbols.complement()),
                Err(e) => Err(e),
            },
            Selector::All => Ok(Set::full()),
            Selector::Range(start, end) => match start.resolved(env) {
                Ok(lo) => match end.resolved(env) {
                    Ok(hi) => Ok(span(lo, hi)),
                    Err(e) => Err(e),
                },
                Err(e) => Err(e),
            },
            Selector::Elem(elem) => match elem.resolved(env) {
                Ok(sym) => Ok(span(sym, sym)),
                Err(e) => Err(e),
            },
        }
    }

    /// The selector with every name replaced by its symbol, operator for
    /// operator.
    pub fn resolve(&self, env: &Environment) -> (out: Result<ResolvedSelector, CompileError>)
        ensures
            match out {
                Ok(sel) => self.resolved(env@) == Ok::<Set<u8>, ErrorKey>(sel@) && substituted(
                    *self,
                    env@,
                    sel,
                ),
                Err(e) => self.resolved(env@) == Err::<Set<u8>, ErrorKey>(e@),
            },
        decreases self,
    {
        match self {
            Selector::Or(v) => {
                assert(self->Or_0 == *v);
                match resolve_selectors(v, env) {
                    Ok(children) => {
                        proof {
                            let sets = collect(sels_resolved(v@, env@))->Ok_0;
                            lemma_children_symbols(children, sets);
                        }
                        assert(ResolvedSelector::Or(children)->Or_0 == children);
                        Ok(ResolvedSelector::Or(children))
                    },
                    Err(e) => Err(e),
                }
            },
            Selector::And(v) => {
                assert(self->And_0 == *v);
                match resolve_selectors(v, env) {
                    Ok(children) => {
                        proof {
                            let sets = collect(sels_resolved(v@, env@))->Ok_0;
                            lemma_children_symbols(children, sets);
                        }
                        assert(ResolvedSelector::And(children)->And_0 == children);
                        Ok(ResolvedSelector::And(children))
                    },
                    Err(e) => Err(e),
                }
            },
            Selector::Not(inner) => match inner.resolve(env) {
                Ok(sel) => {
                    let out = ResolvedSelector::Not(Box::new(sel));
                    assert(out@ =~= sel@.complement()) by {
                        assert forall|c: u8| out.admits(c) == !sel@.contains(c) by {}
                    }
                    Ok(out)
                },
                Err(e) => Err(e),
            },
            Selector::All => {
                assert(ResolvedSelector::All@ =~= Set::<u8>::full());
                Ok(ResolvedSelector::All)
            },
            Selector::Range(start, end) => {
                let lo = match start.resolve(env) {
                    Ok(lo) => lo,
                    Err(e) => {
                        return Err(e);
                    },
                };
                let hi = match end.resolve(env) {
                    Ok(hi) => hi,
                    Err(e) => {
                        return Err(e);
                    },
                };
                assert(ResolvedSelector::Range(lo, hi)@ =~= span(lo, hi));
                Ok(ResolvedSelector::Range(lo, hi))
            },
            Selector::Elem(elem) => match elem.resolve(env) {
                Ok(sym) => {
                    assert(ResolvedSelector::Elem(sym)@ =~= span(sym, sym));
                    Ok(ResolvedSelector::Elem(sym))
                },
                Err(e) => Err(e),
            },
        }
    }
}

/// Resolves the selectors of a list in order, stopping at the first fault.
fn resolve_selectors(v: &Vec<Selector>, env: &Environment) -> (out: Result<
    Vec<ResolvedSelector>,
    CompileError,
>)
    ensures
        match out {
            Ok(children) => {
                &&& collect(sels_resolved(v@, env@)) is Ok
                &&& children@.len() == collect(sels_resolved(v@, env@))->Ok_0.len()
                &&& forall|i: int|
                    0 <= i < children@.len() ==> (#[trigger] children@[i])@ == collect(
                        sels_resolved(v@, env@),
                    )->Ok_0[i]
                &&& children@.len() == v@.len()
                &&& forall|i: int|
                    0 <= i < v@.len() ==> substituted(#[trigger] v@[i], env@, children@[i])
            },
            Err(e) => collect(sels_resolved(v@, env@)) == Err::<Seq<Set<u8>>, ErrorKey>(e@),
        },
    decreases v,
{
    let ghost outcomes = sels_resolved(v@, env@);
    let mut children: Vec<ResolvedSelector> = Vec::new();
    let mut i: usize = 0;
    assert(outcomes.take(0) =~= Seq::<Result<Set<u8>, ErrorKey>>::empty());
    while i < v.len()
        invariant
            i <= v.len(),
            outcomes == sels_resolved(v@, env@),
            collect(outcomes.take(i as int)) is Ok,
            children@.len() == i,
            collect(outcomes.take(i as int))->Ok_0.len() == i,
            forall|k: int|
                0 <= k < i ==> (#[trigger] children@[k])@ == collect(
                    outcomes.take(i as int),
                )->Ok_0[k],
            forall|k: int| 0 <= k < i ==> substituted(#[trigger] v@[k], env@, children@[k]),
        decreases v.len() - i,
    {
        proof {
            lemma_collect_step(outcomes, i as int);
        }
        match v[i].resolve(env) {
            Ok(sel) => {
                children.push(sel);
            },
            Err(e) => {
                proof {
                    lemma_collect_fault(outcomes, i + 1);
                }
                return Err(e);
            },
        }
        i += 1;
    }
    assert(outcomes.take(i as int) =~= outcomes);
    Ok(children)
}

impl Primitive {
    /// The primitive with its symbol fixed. A printed name must be bound to
    /// a symbol.
    pub open spec fn resolved(&self, env: Map<Seq<char>, ArgKey>) -> Result<
        ResolvedPrimitive,
        ErrorKey,
    > {
        match self {
            Primitive::Movel => Ok(ResolvedPrimitive::Movel),
            Primitive::Mover => Ok(ResolvedPrimitive::Mover),
            Primitive::Print(SelectorElem::Sym(sym)) => Ok(ResolvedPrimitive::Print(*sym)),
            Primitive::Print(SelectorElem::Id(name)) => if env.contains_key(name@) {
                match env[name@] {
                    ArgKey::Sym(sym) => Ok(ResolvedPrimitive::Print(sym)),
                    _ => Err(ErrorKey::TypeMismatch(name@)),
                }
            } else {
                Err(ErrorKey::TypeMismatch(name@))
            },
        }
    }

    /// The primitive with its symbol fixed in `env`.
    pub fn resolve(&self, env: &Environment) -> (out: Result<ResolvedPrimitive, CompileError>)
        ensures
            match out {
                Ok(prim) => self.resolved(env@) == Ok::<ResolvedPrimitive, ErrorKey>(prim),
                Err(e) => self.resolved(env@) == Err::<ResolvedPrimitive, ErrorKey>(e@),
            },
    {
        match self {
            Primitive::Movel => Ok(ResolvedPrimitive::Movel),
            Primitive::Mover => Ok(ResolvedPrimitive::Mover),
            Primitive::Print(elem) => match elem {
                SelectorElem::Sym(sym) => Ok(ResolvedPrimitive::Print(*sym)),
                SelectorElem::Id(name) => match env.lookup(name) {
                    Some(arg) => match arg {
                        ResolvedCallArg::Sym(sym) => Ok(ResolvedPrimitive::Print(*sym)),
                        _ => Err(CompileError::TypeMismatch(name.clone())),
                    },
                    None => Err(CompileError::TypeMismatch(name.clone())),
                },
            },
        }
    }
}

/// The chain that a bare name stands for: one call of that name, without
/// arguments.
pub open spec fn bare_call(name: Seq<char>) -> Seq<PartKey> {
    seq![PartKey::Call { id: name, args: Seq::empty() }]
}

/// How each argument of a list resolves.
pub open spec fn args_resolved(args: Seq<CallArg>, env: Map<Seq<char>, ArgKey>) -> Seq<
    Result<ArgKey, ErrorKey>,
>
    decreases args,
{
    Seq::new(
        args.len(),
        |i: int|
            if 0 <= i < args.len() {
                args[i].resolved(env)
            } else {
                Ok(ArgKey::Sym(0))
            },
    )
}

/// How each element of a list resolves.
pub open spec fn parts_resolved(parts: Seq<ChainElem>, env: Map<Seq<char>, ArgKey>) -> Seq<
    Result<PartKey, ErrorKey>,
>
    decreases parts,
{
    Seq::new(
        parts.len(),
        |i: int|
            if 0 <= i < parts.len() {
                parts[i].resolved(env)
            } else {
                Ok(PartKey::Accept)
            },
    )
}

impl CallArg {
    /// The argument as the callee receives it. A selector keeps the way it
    /// is written, with its names replaced by symbols. A bound name is
    /// replaced by what it is bound to; an unbound one is taken for a
    /// template without parameters and becomes a call of it.
    pub open spec fn resolved(&self, env: Map<Seq<char>, ArgKey>) -> Result<ArgKey, ErrorKey>
        decreases self,
    {
        match self {
            CallArg::Sym(sym) => Ok(ArgKey::Sym(*sym)),
            CallArg::Sel(sel) => match sel.resolved(env) {
                Ok(symbols) => Ok(ArgKey::Sel(symbols, sel.written(env))),
                Err(e) => Err(e),
            },
            CallArg::Chain(chain) => match chain.resolved(env) {
                Ok(parts) => Ok(ArgKey::Chain(parts)),
                Err(e) => Err(e),
            },
            CallArg::Id(name) => if env.contains_key(name@) {
                Ok(env[name@])
            } else {
                Ok(ArgKey::Chain(bare_call(name@)))
            },
        }
    }

    /// The argument as the callee receives it.
    pub fn resolve(&self, env: &Environment) -> (out: Result<ResolvedCallArg, CompileError>)
        ensures
            match out {
                Ok(arg) => self.resolved(env@) == Ok::<ArgKey, ErrorKey>(arg@) && (self is Sel
                    ==> arg is Sel && substituted(self->Sel_0, env@, arg->Sel_0)),
                Err(e) => self.resolved(env@) == Err::<ArgKey, ErrorKey>(e@),
            },
        decreases self,
    {
        match self {
            CallArg::Sym(sym) => Ok(ResolvedCallArg::Sym(*sym)),
            CallArg::Sel(sel) => match sel.resolve(env) {
                Ok(sel) => Ok(ResolvedCallArg::Sel(sel)),
                Err(e) => Err(e),
            },
            CallArg::Chain(chain) => match chain.resolve(env) {
                Ok(chain) => Ok(ResolvedCallArg::Chain(chain)),
                Err(e) => Err(e),
            },
            CallArg::Id(name) => match env.lookup(name) {
                Some(arg) => Ok(arg.clone()),
                None => {
                    let call = ResolvedChainElem::Call { id: name.clone(), args: Vec::new() };
                    let mut parts: Vec<ResolvedChainElem> = Vec::new();
                    parts.push(call);
                    let chain = ResolvedChain { parts };
                    assert(call@->Call_args =~= Seq::<ArgKey>::empty());
                    assert(chain@ =~= bare_call(name@));
                    Ok(ResolvedCallArg::Chain(chain))
                },
            },
        }
    }
}

impl ChainElem {
    /// The element with its primitive or its arguments resolved; the
    /// arguments are resolved in order and the first fault counts.
    pub open spec fn resolved(&self, env: Map<Seq<char>, ArgKey>) -> Result<PartKey, ErrorKey>
        decreases self,
    {
        match self {
            ChainElem::Prim(prim) => match prim.resolved(env) {
                Ok(prim) => Ok(PartKey::Prim(prim)),
                Err(e) => Err(e),
            },
            ChainElem::Call { id, args } => match collect(args_resolved(args@, env)) {
                Ok(args) => Ok(PartKey::Call { id: id@, args }),
                Err(e) => Err(e),
            },
            ChainElem::Accept => Ok(PartKey::Accept),
            ChainElem::Reject => Ok(PartKey::Reject),
        }
    }

    /// The element with its primitive or its arguments resolved in `env`.
    pub fn resolve(&self, env: &Environment) -> (out: Result<ResolvedChainElem, CompileError>)
        ensures
            match out {
                Ok(part) => self.resolved(env@) == Ok::<PartKey, ErrorKey>(part@),
                Err(e) => self.resolved(env@) == Err::<PartKey, ErrorKey>(e@),
            },
        decreases self,
    {
        match self {
            ChainElem::Prim(prim) => match prim.resolve(env) {
                Ok(prim) => Ok(ResolvedChainElem::Prim(prim)),
                Err(e) => Err(e),
            },
            ChainElem::Call { id, args } => {
                let ghost outcomes = args_resolved(args@, env@);
                let mut out: Vec<ResolvedCallArg> = Vec::new();
                let mut i: usize = 0;
                assert(outcomes.take(0) =~= Seq::<Result<ArgKey, ErrorKey>>::empty());
                assert(args_key(out@) =~= Seq::<ArgKey>::empty());
                while i < args.len()
                    invariant
                        i <= args.len(),
                        self is Call,
                        self->Call_args == *args,
                        outcomes == args_resolved(args@, env@),
                        collect(outcomes.take(i as int)) == Ok::<Seq<ArgKey>, ErrorKey>(
                            args_key(out@),
                        ),
                    decreases args.len() - i,
                {
                    proof {
                        lemma_collect_step(outcomes, i as int);
                    }
                    match args[i].resolve(env) {
                        Ok(arg) => {
                            proof {
                                assert(args_key(out@.push(arg))
                                    =~= args_key(out@).push(arg@));
                            }
                            out.push(arg);
                        },
                        Err(e) => {
                            proof {
                                lemma_collect_fault(outcomes, i + 1);
                            }
                            return Err(e);
                        },
                    }
                    i += 1;
                }
                assert(outcomes.take(i as int) =~= outcomes);
                Ok(ResolvedChainElem::Call { id: id.clone(), args: out })
            },
            ChainElem::Accept => Ok(ResolvedChainElem::Accept),
            ChainElem::Reject => Ok(ResolvedChainElem::Reject),
        }
    }
}

impl Chain {
    /// The chain with every element resolved in order, in chained form; or
    /// the first fault met.
    pub open spec fn resolved(&self, env: Map<Seq<char>, ArgKey>) -> Result<Seq<PartKey>, ErrorKey>
        decreases self,
    {
        match collect(parts_resolved(self.parts@, env)) {
            Ok(parts) => Ok(flatten(parts)),
            Err(e) => Err(e),
        }
    }

    /// The chain resolved element by element and brought into chained form.
    pub fn resolve(&self, env: &Environment) -> (out: Result<ResolvedChain, CompileError>)
        ensures
            match out {
                Ok(chain) => self.resolved(env@) == Ok::<Seq<PartKey>, ErrorKey>(chain@)
                    && is_flat(chain@),
                Err(e) => self.resolved(env@) == Err::<Seq<PartKey>, ErrorKey>(e@),
            },
        decreases self,
    {
        let ghost outcomes = parts_resolved(self.parts@, env@);
        let mut out: Vec<ResolvedChainElem> = Vec::new();
        let mut i: usize = 0;
        assert(outcomes.take(0) =~= Seq::<Result<PartKey, ErrorKey>>::empty());
        assert(parts_key(out@) =~= Seq::<PartKey>::empty());
        while i < self.parts.len()
            invariant
                i <= self.parts.len(),
                outcomes == parts_resolved(self.parts@, env@),
                collect(outcomes.take(i as int)) == Ok::<Seq<PartKey>, ErrorKey>(
                    parts_key(out@),
                ),
            decreases self.parts.len() - i,
        {
            proof {
                lemma_collect_step(outcomes, i as int);
            }
            match self.parts[i].resolve(env) {
                Ok(part) => {
                    proof {
                        assert(parts_key(out@.push(part))
                            =~= parts_key(out@).push(part@));
                    }
                    out.push(part);
                },
                Err(e) => {
                    proof {
                        lemma_collect_fault(outcomes, i + 1);
                    }
                    return Err(e);
                },
            }
            i += 1;
        }
        assert(outcomes.take(i as int) =~= outcomes);
        Ok(ResolvedChain { parts: out }.into_chained_repr())
    }
}

impl SelectorElem {
    /// Whether the element is a name that stands for no symbol in `env`:
    /// one that is unbound, or bound to a chain, or bound to a selector that
    /// is not written as one element.
    pub open spec fn ill_bound(&self, env: Map<Seq<char>, ArgKey>) -> bool {
        match self {
            SelectorElem::Sym(_) => false,
            SelectorElem::Id(name) => !env.contains_key(name@) || env[name@] is Chain || (
            env[name@] is Sel && env[name@]->Sel_1 is None),
        }
    }

    /// An element fails to resolve exactly when it is ill bound, and then
    /// with `UnboundOrIllTypedParameter` and its name.
    pub proof fn lemma_fails_exactly_when_ill_bound(&self, env: Map<Seq<char>, ArgKey>)
        ensures
            self.resolved(env) is Err <==> self.ill_bound(env),
            self.resolved(env) is Err ==> self is Id && self.resolved(env)
                == Err::<u8, ErrorKey>(ErrorKey::UnboundOrIllTypedParameter(self->Id_0@)),
    {
    }
}

impl Selector {
    /// Whether the selector holds, at any depth, an element that is ill
    /// bound in `env`.
    pub open spec fn holds_ill_bound(&self, env: Map<Seq<char>, ArgKey>) -> bool
        decreases self,
    {
        match self {
            Selector::Or(v) => exists|i: int|
                0 <= i < v@.len() && (#[trigger] v@[i]).holds_ill_bound(env),
            Selector::And(v) => exists|i: int|
                0 <= i < v@.len() && (#[trigger] v@[i]).holds_ill_bound(env),
            Selector::Not(inner) => inner.holds_ill_bound(env),
            Selector::All => false,
            Selector::Range(start, end) => start.ill_bound(env) || end.ill_bound(env),
            Selector::Elem(elem) => elem.ill_bound(env),
        }
    }
}

/// A selector fails to resolve, as a whole, exactly when it holds an element
/// that is ill bound, at whatever depth.
pub proof fn lemma_selector_fails_exactly(sel: Selector, env: Map<Seq<char>, ArgKey>)
    ensures
        sel.resolved(env) is Err <==> sel.holds_ill_bound(env),
    decreases sel,
{
    match sel {
        Selector::Or(v) => {
            lemma_children_fail_exactly(v@, env);
            assert(sel->Or_0 == v);
        },
        Selector::And(v) => {
            lemma_children_fail_exactly(v@, env);
            assert(sel->And_0 == v);
        },
        Selector::Not(inner) => {
            lemma_selector_fails_exactly(*inner, env);
        },
        Selector::Range(start, end) => {
            start.lemma_fails_exactly_when_ill_bound(env);
            end.lemma_fails_exactly_when_ill_bound(env);
        },
        Selector::Elem(elem) => {
            elem.lemma_fails_exactly_when_ill_bound(env);
        },
        Selector::All => {},
    }
}

/// A list of selectors fails to resolve exactly when one of them holds an
/// element that is ill bound.
proof fn lemma_children_fail_exactly(v: Seq<Selector>, env: Map<Seq<char>, ArgKey>)
    ensures
        collect(sels_resolved(v, env)) is Err <==> exists|i: int|
            0 <= i < v.len() && (#[trigger] v[i]).holds_ill_bound(env),
    decreases v,
{
    let outcomes = sels_resolved(v, env);
    lemma_collect_items(outcomes);
    assert forall|i: int| 0 <= i < v.len() implies (outcomes[i] is Err <==> (
    #[trigger] v[i]).holds_ill_bound(env)) by {
        lemma_selector_fails_exactly(v[i], env);
    }
    if collect(outcomes) is Err {
        let at = lemma_collect_first_fault(outcomes);
        assert(v[at].holds_ill_bound(env));
    }
    if exists|i: int| 0 <= i < v.len() && (#[trigger] v[i]).holds_ill_bound(env) {
        let i = choose|i: int| 0 <= i < v.len() && (#[trigger] v[i]).holds_ill_bound(env);
        assert(outcomes[i] is Err);
    }
}

/// The faults that resolving can end in.
pub open spec fn is_resolution_fault(e: ErrorKey) -> bool {
    e is UnboundOrIllTypedParameter || e is TypeMismatch
}

/// A selector fails to resolve only over a parameter that is unbound or
/// does not stand for one symbol.
pub proof fn lemma_selector_fault(sel: Selector, env: Map<Seq<char>, ArgKey>)
    ensures
        sel.resolved(env) is Err ==> sel.resolved(env)->Err_0 is UnboundOrIllTypedParameter,
    decreases sel,
{
    match sel {
        Selector::Or(v) => {
            if collect(sels_resolved(v@, env)) is Err {
                let at = lemma_collect_first_fault(sels_resolved(v@, env));
                lemma_selector_fault(v@[at], env);
            }
        },
        Selector::And(v) => {
            if collect(sels_resolved(v@, env)) is Err {
                let at = lemma_collect_first_fault(sels_resolved(v@, env));
                lemma_selector_fault(v@[at], env);
            }
        },
        Selector::Not(inner) => {
            lemma_selector_fault(*inner, env);
        },
        _ => {},
    }
}

/// An argument fails to resolve only with a fault of resolution.
pub proof fn lemma_call_arg_fault(arg: CallArg, env: Map<Seq<char>, ArgKey>)
    ensures
        arg.resolved(env) is Err ==> is_resolution_fault(arg.resolved(env)->Err_0),
    decreases arg,
{
    match arg {
        CallArg::Sel(sel) => {
            lemma_selector_fault(sel, env);
        },
        CallArg::Chain(chain) => {
            lemma_chain_fault(chain, env);
        },
        _ => {},
    }
}

/// A chain element fails to resolve only with a fault of resolution.
pub proof fn lemma_chain_elem_fault(part: ChainElem, env: Map<Seq<char>, ArgKey>)
    ensures
        part.resolved(env) is Err ==> is_resolution_fault(part.resolved(env)->Err_0),
    decreases part,
{
    match part {
        ChainElem::Call { id, args } => {
            if collect(args_resolved(args@, env)) is Err {
                let at = lemma_collect_first_fault(args_resolved(args@, env));
                lemma_call_arg_fault(args@[at], env);
            }
        },
        _ => {},
    }
}

/// A chain fails to resolve only with a fault of resolution.
pub proof fn lemma_chain_fault(chain: Chain, env: Map<Seq<char>, ArgKey>)
    ensures
        chain.resolved(env) is Err ==> is_resolution_fault(chain.resolved(env)->Err_0),
    decreases chain,
{
    if collect(parts_resolved(chain.parts@, env)) is Err {
        let at = lemma_collect_first_fault(parts_resolved(chain.parts@, env));
        lemma_chain_elem_fault(chain.parts@[at], env);
    }
}

/// Two elements are written alike.
pub open spec fn same_elem(a: SelectorElem, b: SelectorElem) -> bool {
    match a {
        SelectorElem::Sym(sym) => b is Sym && b->Sym_0 == sym,
        SelectorElem::Id(name) => b is Id && b->Id_0@ == name@,
    }
}

/// Two selectors are written alike: the same operators over the same
/// symbols and names, child by child.
pub open spec fn same_selector(a: Selector, b: Selector) -> bool
    decreases a,
{
    match a {
        Selector::Or(v) => b is Or && b->Or_0@.len() == v@.len() && forall|i: int|
            0 <= i < v@.len() ==> same_selector(#[trigger] v@[i], b->Or_0@[i]),
        Selector::And(v) => b is And && b->And_0@.len() == v@.len() && forall|i: int|
            0 <= i < v@.len() ==> same_selector(#[trigger] v@[i], b->And_0@[i]),
        Selector::Not(inner) => b is Not && same_selector(*inner, *b->Not_0),
        Selector::All => b is All,
        Selector::Range(start, end) => b is Range && same_elem(start, b->Range_0) && same_elem(
            end,
            b->Range_1,
        ),
        Selector::Elem(elem) => b is Elem && same_elem(elem, b->Elem_0),
    }
}

/// Two primitives are written alike.
pub open spec fn same_primitive(a: Primitive, b: Primitive) -> bool {
    match a {
        Primitive::Movel => b is Movel,
        Primitive::Mover => b is Mover,
        Primitive::Print(elem) => b is Print && same_elem(elem, b->Print_0),
    }
}

/// Two arguments are written alike.
pub open spec fn same_arg(a: CallArg, b: CallArg) -> bool
    decreases a,
{
    match a {
        CallArg::Sym(sym) => b is Sym && b->Sym_0 == sym,
        CallArg::Sel(sel) => b is Sel && same_selector(sel, b->Sel_0),
        CallArg::Chain(chain) => b is Chain && same_chain(chain, b->Chain_0),
        CallArg::Id(name) => b is Id && b->Id_0@ == name@,
    }
}

/// Two chain elements are written alike.
pub open spec fn same_part(a: ChainElem, b: ChainElem) -> bool
    decreases a,
{
    match a {
        ChainElem::Prim(prim) => b is Prim && same_primitive(prim, b->Prim_0),
        ChainElem::Call { id, args } => b is Call && b->Call_id@ == id@ && b->Call_args@.len()
            == args@.len() && forall|i: int|
            0 <= i < args@.len() ==> same_arg(#[trigger] args@[i], b->Call_args@[i]),
        ChainElem::Accept => b is Accept,
        ChainElem::Reject => b is Reject,
    }
}

/// Two chains are written alike, element by element.
pub open spec fn same_chain(a: Chain, b: Chain) -> bool
    decreases a,
{
    b.parts@.len() == a.parts@.len() && forall|i: int|
        0 <= i < a.parts@.len() ==> same_part(#[trigger] a.parts@[i], b.parts@[i])
}

/// Two branches are written alike.
pub open spec fn same_branch(a: Branch, b: Branch) -> bool {
    same_selector(a.sel, b.sel) && same_chain(a.chain, b.chain)
}

/// Two templates are written alike: the same name, the same parameters,
/// and branches that are written alike, in the same order.
pub open spec fn same_template(a: StateDef, b: StateDef) -> bool {
    &&& b.name@ == a.name@
    &&& b.params@.len() == a.params@.len()
    &&& forall|i: int| 0 <= i < a.params@.len() ==> (#[trigger] a.params@[i])@ == b.params@[i]@
    &&& b.branches@.len() == a.branches@.len()
    &&& forall|i: int|
        0 <= i < a.branches@.len() ==> same_branch(#[trigger] a.branches@[i], b.branches@[i])
}

impl Clone for SelectorElem {
    fn clone(&self) -> (copy: Self)
        ensures
            same_elem(*self, copy),
    {
        match self {
            SelectorElem::Sym(sym) => SelectorElem::Sym(*sym),
            SelectorElem::Id(name) => SelectorElem::Id(name.clone()),
        }
    }
}

impl Clone for Selector {
    fn clone(&self) -> (copy: Self)
        ensures
            same_selector(*self, copy),
        decreases self,
    {
        match self {
            Selector::Or(v) => {
                let mut w: Vec<Selector> = Vec::new();
                let mut i: usize = 0;
                while i < v.len()
                    invariant
                        i <= v.len(),
                        self is Or,
                        self->Or_0 == *v,
                        w@.len() == i,
                        forall|k: int| 0 <= k < i ==> same_selector(#[trigger] v@[k], w@[k]),
                    decreases v.len() - i,
                {
                    w.push(v[i].clone());
                    i += 1;
                }
                let copy = Selector::Or(w);
                assert(copy->Or_0 == w);
                copy
            },
            Selector::And(v) => {
                let mut w: Vec<Selector> = Vec::new();
                let mut i: usize = 0;
                while i < v.len()
                    invariant
                        i <= v.len(),
                        self is And,
                        self->And_0 == *v,
                        w@.len() == i,
                        forall|k: int| 0 <= k < i ==> same_selector(#[trigger] v@[k], w@[k]),
                    decreases v.len() - i,
                {
                    w.push(v[i].clone());
                    i += 1;
                }
                let copy = Selector::And(w);
                assert(copy->And_0 == w);
                copy
            },
            Selector::Not(inner) => Selector::Not(Box::new((&**inner).clone())),
            Selector::All => Selector::All,
            Selector::Range(start, end) => Selector::Range(start.clone(), end.clone()),
            Selector::Elem(elem) => Selector::Elem(elem.clone()),
        }
    }
}

impl Clone for Primitive {
    fn clone(&self) -> (copy: Self)
        ensures
            same_primitive(*self, copy),
    {
        match self {
            Primitive::Movel => Primitive::Movel,
            Primitive::Mover => Primitive::Mover,
            Primitive::Print(elem) => Primitive::Print(elem.clone()),
        }
    }
}

impl Clone for CallArg {
    fn clone(&self) -> (copy: Self)
        ensures
            same_arg(*self, copy),
        decreases self,
    {
        match self {
            CallArg::Sym(sym) => CallArg::Sym(*sym),
            CallArg::Sel(sel) => CallArg::Sel(sel.clone()),
            CallArg::Chain(chain) => CallArg::Chain(chain.clone()),
            CallArg::Id(name) => CallArg::Id(name.clone()),
        }
    }
}

impl Clone for ChainElem {
    fn clone(&self) -> (copy: Self)
        ensures
            same_part(*self, copy),
        decreases self,
    {
        match self {
            ChainElem::Prim(prim) => ChainElem::Prim(prim.clone()),
            ChainElem::Call { id, args } => {
                let mut copies: Vec<CallArg> = Vec::new();
                let mut i: usize = 0;
                while i < args.len()
                    invariant
                        i <= args.len(),
                        self is Call,
                        self->Call_args == *args,
                        copies@.len() == i,
                        forall|k: int| 0 <= k < i ==> same_arg(#[trigger] args@[k], copies@[k]),
                    decreases args.len() - i,
                {
                    copies.push(args[i].clone());
                    i += 1;
                }
                ChainElem::Call { id: id.clone(), args: copies }
            },
            ChainElem::Accept => ChainElem::Accept,
            ChainElem::Reject => ChainElem::Reject,
        }
    }
}

impl Clone for Chain {
    fn clone(&self) -> (copy: Self)
        ensures
            same_chain(*self, copy),
        decreases self,
    {
        let mut parts: Vec<ChainElem> = Vec::new();
        let mut i: usize = 0;
        while i < self.parts.len()
            invariant
                i <= self.parts.len(),
                parts@.len() == i,
                forall|k: int| 0 <= k < i ==> same_part(#[trigger] self.parts@[k], parts@[k]),
            decreases self.parts.len() - i,
        {
            parts.push(self.parts[i].clone());
            i += 1;
        }
        Chain { parts }
    }
}

impl Clone for Branch {
    fn clone(&self) -> (copy: Self)
        ensures
            same_branch(*self, copy),
    {
        Branch { sel: self.sel.clone(), chain: self.chain.clone() }
    }
}

impl Clone for StateDef {
    fn clone(&self) -> (copy: Self)
        ensures
            same_template(*self, copy),
    {
        let mut params: Vec<String> = Vec::new();
        let mut i: usize = 0;
        while i < self.params.len()
            invariant
                i <= self.params.len(),
                params@.len() == i,
                forall|k: int| 0 <= k < i ==> (#[trigger] self.params@[k])@ == params@[k]@,
            decreases self.params.len() - i,
        {
            params.push(self.params[i].clone());
            i += 1;
        }
        let mut branches: Vec<Branch> = Vec::new();
        let mut j: usize = 0;
        while j < self.branches.len()
            invariant
                j <= self.branches.len(),
                branches@.len() == j,
                forall|k: int|
                    0 <= k < j ==> same_branch(#[trigger] self.branches@[k], branches@[k]),
            decreases self.branches.len() - j,
        {
            branches.push(self.branches[j].clone());
            j += 1;
        }
        StateDef { name: self.name.clone(), params, branches }
    }
}

} // verus!
