//! Resolved values: selectors, primitives, chains and call arguments with
//! every parameter substituted; their model, and what tells two of them
//! apart when they are compared.

use crate::mask::{mask_bits, mask_eq, mask_new, mask_push, Mask};
use vstd::prelude::*;
use vstd::std_specs::cmp::PartialEqSpecImpl;

verus! {

/// A selector with every parameter replaced by a symbol.
#[derive(Debug)]
pub enum ResolvedSelector {
    Or(Vec<ResolvedSelector>),
    And(Vec<ResolvedSelector>),
    Not(Box<ResolvedSelector>),
    All,
    Range(u8, u8),
    Elem(u8),
}

impl ResolvedSelector {
    /// Membership, read off the shape of the expression.
    pub open spec fn admits(&self, sym: u8) -> bool
        decreases self,
    {
        match self {
            ResolvedSelector::Or(v) => exists|i: int|
                0 <= i < v@.len() && (#[trigger] v@[i]).admits(sym),
            ResolvedSelector::And(v) => forall|i: int|
                0 <= i < v@.len() ==> (#[trigger] v@[i]).admits(sym),
            ResolvedSelector::Not(s) => !s.admits(sym),
            ResolvedSelector::All => true,
            ResolvedSelector::Range(start, end) => *start <= sym && sym <= *end,
            ResolvedSelector::Elem(only) => sym == *only,
        }
    }

    /// The membership mask: bit `i` tells whether symbol `i` is admitted.
    pub open spec fn key_bits(&self) -> Seq<bool> {
        Seq::new(256, |i: int| self.admits(i as u8))
    }

    /// Tests whether the selector admits `sym`.
    pub fn contains(&self, sym: u8) -> (found: bool)
        ensures
            found == self.admits(sym),
        decreases self,
    {
        match self {
            ResolvedSelector::Or(v) => {
                let mut i: usize = 0;
                while i < v.len()
                    invariant
                        i <= v.len(),
                        *self == ResolvedSelector::Or(*v),
                        forall|j: int| 0 <= j < i ==> !(#[trigger] v@[j]).admits(sym),
                    decreases v.len() - i,
                {
                    assert(self->Or_0 == *v);
                    if v[i].contains(sym) {
                        return true;
                    }
                    i += 1;
                }
                false
            },
            ResolvedSelector::And(v) => {
                let mut i: usize = 0;
                while i < v.len()
                    invariant
                        i <= v.len(),
                        *self == ResolvedSelector::And(*v),
                        forall|j: int| 0 <= j < i ==> (#[trigger] v@[j]).admits(sym),
                    decreases v.len() - i,
                {
                    assert(self->And_0 == *v);
                    if !v[i].contains(sym) {
                        return false;
                    }
                    i += 1;
                }
                true
            },
            ResolvedSelector::Not(s) => !s.contains(sym),
            ResolvedSelector::All => true,
            ResolvedSelector::Range(start, end) => sym >= *start && sym <= *end,
            ResolvedSelector::Elem(only) => sym == *only,
        }
    }

    /// The symbol that the selector is written as, if it is written as one
    /// element.
    pub open spec fn written_elem(&self) -> Option<u8> {
        match self {
            ResolvedSelector::Elem(only) => Some(*only),
            _ => None,
        }
    }

    /// Materialises the membership mask, one probe per symbol.
    pub fn canonical_key(&self) -> (key: Mask)
        ensures
            mask_bits(key) == self.key_bits(),
    {
        let mut key = mask_new();
        let mut c: u16 = 0;
        while c < 256
            invariant
                c <= 256,
                mask_bits(key) == Seq::new(c as nat, |i: int| self.admits(i as u8)),
            decreases 256 - c,
        {
            let bit = self.contains(c as u8);
            mask_push(&mut key, bit);
            assert(mask_bits(key) =~= Seq::new((c + 1) as nat, |i: int| self.admits(i as u8)));
            c += 1;
        }
        key
    }
}

/// The symbols that at least one of the sets holds.
pub open spec fn any_of(sets: Seq<Set<u8>>) -> Set<u8> {
    Set::new(|c: u8| exists|i: int| 0 <= i < sets.len() && (#[trigger] sets[i]).contains(c))
}

/// The symbols that every one of the sets holds.
pub open spec fn all_of(sets: Seq<Set<u8>>) -> Set<u8> {
    Set::new(|c: u8| forall|i: int| 0 <= i < sets.len() ==> (#[trigger] sets[i]).contains(c))
}

/// The symbols from `lo` to `hi`, both included.
pub open spec fn span(lo: u8, hi: u8) -> Set<u8> {
    Set::new(|c: u8| lo <= c && c <= hi)
}

/// `Or` is union and `And` is intersection over the children's symbols.
pub proof fn lemma_children_symbols(v: Vec<ResolvedSelector>, sets: Seq<Set<u8>>)
    requires
        v@.len() == sets.len(),
        forall|i: int| 0 <= i < v@.len() ==> (#[trigger] v@[i])@ == sets[i],
    ensures
        ResolvedSelector::Or(v)@ == any_of(sets),
        ResolvedSelector::And(v)@ == all_of(sets),
{
    assert(ResolvedSelector::Or(v)->Or_0 == v);
    assert(ResolvedSelector::And(v)->And_0 == v);
    assert forall|i: int, c: u8| 0 <= i < v@.len() implies (#[trigger] v@[i].admits(c))
        == sets[i].contains(c) by {
        assert(v@[i]@.contains(c) == sets[i].contains(c));
    }
    assert forall|c: u8| ResolvedSelector::Or(v).admits(c) == any_of(sets).contains(c) by {
        if ResolvedSelector::Or(v).admits(c) {
            let i = choose|i: int| 0 <= i < v@.len() && (#[trigger] v@[i]).admits(c);
            assert(sets[i].contains(c));
        }
        if any_of(sets).contains(c) {
            let i = choose|i: int| 0 <= i < sets.len() && (#[trigger] sets[i]).contains(c);
            assert(v@[i].admits(c));
        }
    }
    assert forall|c: u8| ResolvedSelector::And(v).admits(c) == all_of(sets).contains(c) by {
        if ResolvedSelector::And(v).admits(c) {
            assert forall|i: int| 0 <= i < sets.len() implies (#[trigger] sets[i]).contains(c) by {
                assert(v@[i].admits(c));
            }
        }
        if all_of(sets).contains(c) {
            assert forall|i: int| 0 <= i < v@.len() implies (#[trigger] v@[i]).admits(c) by {
                assert(sets[i].contains(c));
            }
        }
    }
    assert(ResolvedSelector::Or(v)@ =~= any_of(sets));
    assert(ResolvedSelector::And(v)@ =~= all_of(sets));
}

impl View for ResolvedSelector {
    type V = Set<u8>;

    /// The set of symbols that the selector admits.
    open spec fn view(&self) -> Set<u8> {
        Set::new(|c: u8| self.admits(c))
    }
}

/// Two selectors have the same mask exactly when they admit the same symbols.
pub proof fn lemma_canonical_key_decides_membership(a: ResolvedSelector, b: ResolvedSelector)
    ensures
        a.key_bits() == b.key_bits() <==> a@ == b@,
        a@ == b@ <==> (forall|sym: u8| a.admits(sym) == b.admits(sym)),
{
    if a.key_bits() == b.key_bits() {
        assert forall|sym: u8| a.admits(sym) == b.admits(sym) by {
            assert(a.key_bits()[sym as int] == a.admits(sym));
            assert(b.key_bits()[sym as int] == b.admits(sym));
        }
        assert(a@ =~= b@);
    }
    if a@ == b@ {
        assert forall|sym: u8| a.admits(sym) == b.admits(sym) by {
            assert(a@.contains(sym) == b@.contains(sym));
        }
        assert(a.key_bits() =~= b.key_bits());
    }
    if forall|sym: u8| a.admits(sym) == b.admits(sym) {
        assert(a@ =~= b@);
    }
}

impl PartialEq for ResolvedSelector {
    fn eq(&self, other: &Self) -> (same: bool) {
        proof {
            lemma_canonical_key_decides_membership(*self, *other);
        }
        mask_eq(&self.canonical_key(), &other.canonical_key())
    }
}

impl PartialEqSpecImpl for ResolvedSelector {
    open spec fn obeys_eq_spec() -> bool {
        true
    }

    open spec fn eq_spec(&self, other: &Self) -> bool {
        self@ == other@
    }
}

impl Eq for ResolvedSelector {

}

/// Two selectors are written alike: the same operators over the same
/// symbols, child by child.
pub open spec fn written_alike(a: ResolvedSelector, b: ResolvedSelector) -> bool
    decreases a,
{
    match a {
        ResolvedSelector::Or(v) => b is Or && b->Or_0@.len() == v@.len() && forall|i: int|
            0 <= i < v@.len() ==> written_alike(#[trigger] v@[i], b->Or_0@[i]),
        ResolvedSelector::And(v) => b is And && b->And_0@.len() == v@.len() && forall|i: int|
            0 <= i < v@.len() ==> written_alike(#[trigger] v@[i], b->And_0@[i]),
        ResolvedSelector::Not(inner) => b is Not && written_alike(*inner, *b->Not_0),
        ResolvedSelector::All => b is All,
        ResolvedSelector::Range(start, end) => b is Range && b->Range_0 == start && b->Range_1
            == end,
        ResolvedSelector::Elem(only) => b is Elem && b->Elem_0 == only,
    }
}

/// Selectors that are written alike admit the same symbols.
pub proof fn lemma_alike_admit_alike(a: ResolvedSelector, b: ResolvedSelector, c: u8)
    requires
        written_alike(a, b),
    ensures
        a.admits(c) == b.admits(c),
    decreases a,
{
    match a {
        ResolvedSelector::Or(v) => {
            let w = b->Or_0;
            assert forall|i: int| 0 <= i < v@.len() implies (#[trigger] v@[i]).admits(c)
                == w@[i].admits(c) by {
                lemma_alike_admit_alike(v@[i], w@[i], c);
            }
            if a.admits(c) {
                let i = choose|i: int| 0 <= i < v@.len() && (#[trigger] v@[i]).admits(c);
                assert(w@[i].admits(c));
            }
            if b.admits(c) {
                let i = choose|i: int| 0 <= i < w@.len() && (#[trigger] w@[i]).admits(c);
                assert(v@[i].admits(c));
            }
        },
        ResolvedSelector::And(v) => {
            let w = b->And_0;
            assert forall|i: int| 0 <= i < v@.len() implies (#[trigger] v@[i]).admits(c)
                == w@[i].admits(c) by {
                lemma_alike_admit_alike(v@[i], w@[i], c);
            }
            if a.admits(c) {
                assert forall|i: int| 0 <= i < w@.len() implies (#[trigger] w@[i]).admits(c) by {
                    assert(v@[i].admits(c));
                }
            }
            if b.admits(c) {
                assert forall|i: int| 0 <= i < v@.len() implies (#[trigger] v@[i]).admits(c) by {
                    assert(w@[i].admits(c));
                }
            }
        },
        ResolvedSelector::Not(inner) => {
            lemma_alike_admit_alike(*inner, *b->Not_0, c);
        },
        _ => {},
    }
}

/// Selectors that are written alike have the same view.
pub proof fn lemma_alike_same_symbols(a: ResolvedSelector, b: ResolvedSelector)
    requires
        written_alike(a, b),
    ensures
        a@ == b@,
{
    assert forall|c: u8| a.admits(c) == b.admits(c) by {
        lemma_alike_admit_alike(a, b, c);
    }
    assert(a@ =~= b@);
}

impl Clone for ResolvedSelector {
    fn clone(&self) -> (copy: Self)
        ensures
            written_alike(*self, copy),
            copy@ == self@,
        decreases self,
    {
        match self {
            ResolvedSelector::Or(v) => {
                let mut w: Vec<ResolvedSelector> = Vec::new();
                let mut i: usize = 0;
                while i < v.len()
                    invariant
                        i <= v.len(),
                        *self == ResolvedSelector::Or(*v),
                        w@.len() == i,
                        forall|j: int| 0 <= j < i ==> written_alike(#[trigger] v@[j], w@[j]),
                    decreases v.len() - i,
                {
                    assert(self->Or_0 == *v);
                    let child = v[i].clone();
                    w.push(child);
                    i += 1;
                }
                let copy = ResolvedSelector::Or(w);
                proof {
                    assert(self->Or_0 == *v && copy->Or_0 == w);
                    lemma_alike_same_symbols(*self, copy);
                }
                copy
            },
            ResolvedSelector::And(v) => {
                let mut w: Vec<ResolvedSelector> = Vec::new();
                let mut i: usize = 0;
                while i < v.len()
                    invariant
                        i <= v.len(),
                        *self == ResolvedSelector::And(*v),
                        w@.len() == i,
                        forall|j: int| 0 <= j < i ==> written_alike(#[trigger] v@[j], w@[j]),
                    decreases v.len() - i,
                {
                    assert(self->And_0 == *v);
                    let child = v[i].clone();
                    w.push(child);
                    i += 1;
                }
                let copy = ResolvedSelector::And(w);
                proof {
                    assert(self->And_0 == *v && copy->And_0 == w);
                    lemma_alike_same_symbols(*self, copy);
                }
                copy
            },
            ResolvedSelector::Not(s) => {
                let inner = (&**s).clone();
                let copy = ResolvedSelector::Not(Box::new(inner));
                proof {
                    lemma_alike_same_symbols(*self, copy);
                }
                copy
            },
            ResolvedSelector::All => ResolvedSelector::All,
            ResolvedSelector::Range(start, end) => ResolvedSelector::Range(*start, *end),
            ResolvedSelector::Elem(only) => ResolvedSelector::Elem(*only),
        }
    }
}

/// A primitive with its symbol fixed.
#[derive(Debug, Clone, Copy, PartialEq, Eq, Structural)]
pub enum ResolvedPrimitive {
    Movel,
    Mover,
    Print(u8),
}

/// A chain with every parameter substituted.
#[derive(Debug)]
pub struct ResolvedChain {
    pub parts: Vec<ResolvedChainElem>,
}

/// One element of a resolved chain.
#[derive(Debug)]
pub enum ResolvedChainElem {
    Prim(ResolvedPrimitive),
    Call { id: String, args: Vec<ResolvedCallArg> },
    Accept,
    Reject,
}

/// An argument as a template receives it.
#[derive(Debug)]
pub enum ResolvedCallArg {
    Sym(u8),
    Sel(ResolvedSelector),
    Chain(ResolvedChain),
}

/// The model of an argument: a symbol by its value; a selector by the
/// symbols it admits and, if it is written as one element, by that element;
/// a chain by its elements.
pub enum ArgKey {
    Sym(u8),
    Sel(Set<u8>, Option<u8>),
    Chain(Seq<PartKey>),
}

/// One element of a chain, over the same model.
pub enum PartKey {
    Prim(ResolvedPrimitive),
    Call { id: Seq<char>, args: Seq<ArgKey> },
    Accept,
    Reject,
}

/// The model of an argument.
pub open spec fn arg_key(arg: ResolvedCallArg) -> ArgKey
    decreases arg,
{
    match arg {
        ResolvedCallArg::Sym(sym) => ArgKey::Sym(sym),
        ResolvedCallArg::Sel(sel) => ArgKey::Sel(sel@, sel.written_elem()),
        ResolvedCallArg::Chain(chain) => ArgKey::Chain(parts_key(chain.parts@)),
    }
}

/// The models of a list of arguments, one for one.
pub open spec fn args_key(args: Seq<ResolvedCallArg>) -> Seq<ArgKey>
    decreases args,
{
    Seq::new(
        args.len(),
        |i: int|
            if 0 <= i < args.len() {
                arg_key(args[i])
            } else {
                ArgKey::Sym(0)
            },
    )
}

/// The model of a chain element.
pub open spec fn part_key(part: ResolvedChainElem) -> PartKey
    decreases part,
{
    match part {
        ResolvedChainElem::Prim(prim) => PartKey::Prim(prim),
        ResolvedChainElem::Call { id, args } => PartKey::Call { id: id@, args: args_key(args@) },
        ResolvedChainElem::Accept => PartKey::Accept,
        ResolvedChainElem::Reject => PartKey::Reject,
    }
}

/// The models of a list of chain elements, one for one.
pub open spec fn parts_key(parts: Seq<ResolvedChainElem>) -> Seq<PartKey>
    decreases parts,
{
    Seq::new(
        parts.len(),
        |i: int|
            if 0 <= i < parts.len() {
                part_key(parts[i])
            } else {
                PartKey::Accept
            },
    )
}

/// What tells two arguments apart when instances are told apart: a symbol
/// its value, a selector the symbols it admits, however it is written, a
/// chain its elements.
pub enum ArgId {
    Sym(u8),
    Sel(Set<u8>),
    Chain(Seq<PartId>),
}

/// What tells two chain elements apart.
pub enum PartId {
    Prim(ResolvedPrimitive),
    Call { id: Seq<char>, args: Seq<ArgId> },
    Accept,
    Reject,
}

/// What tells an argument apart from others.
pub open spec fn arg_id(arg: ArgKey) -> ArgId
    decreases arg,
{
    match arg {
        ArgKey::Sym(sym) => ArgId::Sym(sym),
        ArgKey::Sel(symbols, _) => ArgId::Sel(symbols),
        ArgKey::Chain(parts) => ArgId::Chain(parts_id(parts)),
    }
}

/// What tells each argument of a list apart, one for one.
pub open spec fn args_id(args: Seq<ArgKey>) -> Seq<ArgId>
    decreases args,
{
    Seq::new(
        args.len(),
        |i: int|
            if 0 <= i < args.len() {
                arg_id(args[i])
            } else {
                ArgId::Sym(0)
            },
    )
}

/// What tells a chain element apart from others.
pub open spec fn part_id(part: PartKey) -> PartId
    decreases part,
{
    match part {
        PartKey::Prim(prim) => PartId::Prim(prim),
        PartKey::Call { id, args } => PartId::Call { id, args: args_id(args) },
        PartKey::Accept => PartId::Accept,
        PartKey::Reject => PartId::Reject,
    }
}

/// What tells each element of a chain apart, one for one.
pub open spec fn parts_id(parts: Seq<PartKey>) -> Seq<PartId>
    decreases parts,
{
    Seq::new(
        parts.len(),
        |i: int|
            if 0 <= i < parts.len() {
                part_id(parts[i])
            } else {
                PartId::Accept
            },
    )
}

impl View for ResolvedCallArg {
    type V = ArgKey;

    open spec fn view(&self) -> ArgKey {
        arg_key(*self)
    }
}

impl View for ResolvedChainElem {
    type V = PartKey;

    open spec fn view(&self) -> PartKey {
        part_key(*self)
    }
}

impl View for ResolvedChain {
    type V = Seq<PartKey>;

    open spec fn view(&self) -> Seq<PartKey> {
        parts_key(self.parts@)
    }
}

impl Clone for ResolvedCallArg {
    fn clone(&self) -> (copy: Self)
        ensures
            copy@ == self@,
        decreases self,
    {
        match self {
            ResolvedCallArg::Sym(sym) => ResolvedCallArg::Sym(*sym),
            ResolvedCallArg::Sel(sel) => ResolvedCallArg::Sel(sel.clone()),
            ResolvedCallArg::Chain(chain) => ResolvedCallArg::Chain(chain.clone()),
        }
    }
}

impl Clone for ResolvedChainElem {
    fn clone(&self) -> (copy: Self)
        ensures
            copy@ == self@,
        decreases self,
    {
        match self {
            ResolvedChainElem::Prim(prim) => ResolvedChainElem::Prim(*prim),
            ResolvedChainElem::Call { id, args } => {
                let mut copies: Vec<ResolvedCallArg> = Vec::new();
                let mut i: usize = 0;
                while i < args.len()
                    invariant
                        i <= args.len(),
                        self is Call,
                        self->Call_args == *args,
                        copies@.len() == i,
                        forall|j: int| 0 <= j < i ==> (#[trigger] copies@[j])@ == args@[j]@,
                    decreases args.len() - i,
                {
                    let arg = args[i].clone();
                    copies.push(arg);
                    i += 1;
                }
                assert(args_key(copies@) =~= args_key(args@));
                ResolvedChainElem::Call { id: id.clone(), args: copies }
            },
            ResolvedChainElem::Accept => ResolvedChainElem::Accept,
            ResolvedChainElem::Reject => ResolvedChainElem::Reject,
        }
    }
}

impl Clone for ResolvedChain {
    fn clone(&self) -> (copy: Self)
        ensures
            copy@ == self@,
        decreases self,
    {
        let mut parts: Vec<ResolvedChainElem> = Vec::new();
        let mut i: usize = 0;
        while i < self.parts.len()
            invariant
                i <= self.parts.len(),
                parts@.len() == i,
                forall|j: int| 0 <= j < i ==> (#[trigger] parts@[j])@ == self.parts@[j]@,
            decreases self.parts.len() - i,
        {
            let part = self.parts[i].clone();
            parts.push(part);
            i += 1;
        }
        assert(parts_key(parts@) =~= parts_key(self.parts@));
        ResolvedChain { parts }
    }
}

impl PartialEq for ResolvedCallArg {
    fn eq(&self, other: &Self) -> (same: bool)
        decreases self,
    {
        match (self, other) {
            (ResolvedCallArg::Sym(a), ResolvedCallArg::Sym(b)) => *a == *b,
            (ResolvedCallArg::Sel(a), ResolvedCallArg::Sel(b)) => a.eq(b),
            (ResolvedCallArg::Chain(a), ResolvedCallArg::Chain(b)) => a.eq(b),
            _ => false,
        }
    }
}

impl PartialEqSpecImpl for ResolvedCallArg {
    open spec fn obeys_eq_spec() -> bool {
        true
    }

    /// Two arguments are equal when nothing tells them apart: selectors
    /// count by the symbols they admit.
    open spec fn eq_spec(&self, other: &Self) -> bool {
        arg_id(self@) == arg_id(other@)
    }
}

impl Eq for ResolvedCallArg {

}

impl PartialEq for ResolvedChainElem {
    fn eq(&self, other: &Self) -> (same: bool)
        decreases self,
    {
        match (self, other) {
            (ResolvedChainElem::Prim(a), ResolvedChainElem::Prim(b)) => *a == *b,
            (
                ResolvedChainElem::Call { id, args },
                ResolvedChainElem::Call { id: other_id, args: other_args },
            ) => {
                if !id.eq(other_id) || args.len() != other_args.len() {
                    assert(args_id(args_key(args@)).len() == args@.len());
                    assert(args_id(args_key(other_args@)).len() == other_args@.len());
                    return false;
                }
                let mut i: usize = 0;
                while i < args.len()
                    invariant
                        i <= args.len(),
                        args.len() == other_args.len(),
                        self is Call,
                        self->Call_args == *args,
                        other is Call,
                        other->Call_args == *other_args,
                        forall|j: int|
                            0 <= j < i ==> arg_id((#[trigger] args@[j])@) == arg_id(
                                other_args@[j]@,
                            ),
                    decreases args.len() - i,
                {
                    if !args[i].eq(&other_args[i]) {
                        assert(args_id(args_key(args@))[i as int] == arg_id(args@[i as int]@));
                        assert(args_id(args_key(other_args@))[i as int] == arg_id(
                            other_args@[i as int]@,
                        ));
                        return false;
                    }
                    i += 1;
                }
                assert(args_id(args_key(args@)) =~= args_id(args_key(other_args@))) by {
                    assert forall|j: int| 0 <= j < args@.len() implies args_id(
                        args_key(args@),
                    )[j] == args_id(args_key(other_args@))[j] by {
                        assert(arg_id(args@[j]@) == arg_id(other_args@[j]@));
                    }
                }
                true
            },
            (ResolvedChainElem::Accept, ResolvedChainElem::Accept) => true,
            (ResolvedChainElem::Reject, ResolvedChainElem::Reject) => true,
            _ => false,
        }
    }
}

impl PartialEqSpecImpl for ResolvedChainElem {
    open spec fn obeys_eq_spec() -> bool {
        true
    }

    open spec fn eq_spec(&self, other: &Self) -> bool {
        part_id(self@) == part_id(other@)
    }
}

impl Eq for ResolvedChainElem {

}

impl PartialEq for ResolvedChain {
    fn eq(&self, other: &Self) -> (same: bool)
        decreases self,
    {
        if self.parts.len() != other.parts.len() {
            assert(parts_id(self@).len() != parts_id(other@).len());
            return false;
        }
        let mut i: usize = 0;
        while i < self.parts.len()
            invariant
                i <= self.parts.len(),
                self.parts.len() == other.parts.len(),
                forall|j: int|
                    0 <= j < i ==> part_id((#[trigger] self.parts@[j])@) == part_id(
                        other.parts@[j]@,
                    ),
            decreases self.parts.len() - i,
        {
            if !self.parts[i].eq(&other.parts[i]) {
                assert(parts_id(self@)[i as int] == part_id(self.parts@[i as int]@));
                assert(parts_id(other@)[i as int] == part_id(other.parts@[i as int]@));
                return false;
            }
            i += 1;
        }
        assert(parts_id(self@) =~= parts_id(other@)) by {
            assert forall|j: int| 0 <= j < self.parts@.len() implies parts_id(self@)[j]
                == parts_id(other@)[j] by {
                assert(part_id(self.parts@[j]@) == part_id(other.parts@[j]@));
            }
        }
        true
    }
}

impl PartialEqSpecImpl for ResolvedChain {
    open spec fn obeys_eq_spec() -> bool {
        true
    }

    open spec fn eq_spec(&self, other: &Self) -> bool {
        parts_id(self@) == parts_id(other@)
    }
}

impl Eq for ResolvedChain {

}

impl ResolvedCallArg {
    /// Tests whether the argument is a chain.
    pub fn is_chain(&self) -> (yes: bool)
        ensures
            yes == (self@ is Chain),
    {
        match self {
            ResolvedCallArg::Chain(_) => true,
            _ => false,
        }
    }
}

} // verus!
