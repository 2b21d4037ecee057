//! The syntax tree the evaluator consumes.
//!
//! The front-end (an external parser) is out of scope here: it hands the core an
//! already-parsed tree.  Nodes live in the session arena and refer to their
//! children by index; a node may only refer to nodes added before it, so the
//! tree is acyclic by construction.

use vstd::prelude::*;

verus! {

/// Where a path literal is anchored.
#[derive(Clone, Copy, PartialEq, Eq, Structural, Debug)]
pub enum Anchor {
    Absolute,
    Relative,
    Home,
    Store,
}

/// The binary operators the reduction engine gives a rule to.
#[derive(Clone, Copy, PartialEq, Eq, Structural, Debug)]
pub enum BinOpKind {
    Add,
    Sub,
    Mul,
    Div,
    And,
    Or,
    Implication,
    Equal,
    NotEqual,
    Less,
    LessOrEq,
    More,
    MoreOrEq,
}

/// One syntax node.  Child nodes are named by their index in the arena.
#[derive(Debug)]
pub enum Node {
    /// Semantically transparent wrapping: parentheses, or the root of a parse.
    Paren(usize),
    NullLit,
    BoolLit(bool),
    IntLit(i64),
    StrLit(String),
    PathLit(Anchor, String),
    /// A free identifier, resolved against the scope of the enclosing thunk.
    Ident(String),
    List(Vec<usize>),
    AttrSet(Vec<(String, usize)>),
    BinOp(BinOpKind, usize, usize),
    IfElse(usize, usize, usize),
    Assert(usize, usize),
    Apply(usize, usize),
    /// A single-parameter lambda; its body is evaluated under the scope the
    /// lambda was classified in, extended with the parameter.
    Lambda(String, usize),
    /// Mutually visible bindings and a body.
    LetIn(Vec<(String, usize)>, usize),
    With(usize, usize),
}

/// Every name/index pair points below `bound`.
pub open spec fn entries_wf(es: Seq<(String, usize)>, bound: int) -> bool {
    forall|k: int| 0 <= k < es.len() ==> (#[trigger] es[k]).1 < bound
}

/// Every index points below `bound`.
pub open spec fn ids_wf(es: Seq<usize>, bound: int) -> bool {
    forall|k: int| 0 <= k < es.len() ==> (#[trigger] es[k]) < bound
}

impl Node {
    /// All children of this node lie below `bound`.
    pub open spec fn wf(self, bound: int) -> bool {
        match self {
            Node::Paren(i) => i < bound,
            Node::NullLit => true,
            Node::BoolLit(_) => true,
            Node::IntLit(_) => true,
            Node::StrLit(_) => true,
            Node::PathLit(_, _) => true,
            Node::Ident(_) => true,
            Node::List(es) => ids_wf(es@, bound),
            Node::AttrSet(es) => entries_wf(es@, bound),
            Node::BinOp(_, l, r) => l < bound && r < bound,
            Node::IfElse(c, t, e) => c < bound && t < bound && e < bound,
            Node::Assert(p, r) => p < bound && r < bound,
            Node::Apply(f, a) => f < bound && a < bound,
            Node::Lambda(_, b) => b < bound,
            Node::LetIn(bs, b) => entries_wf(bs@, bound) && b < bound,
            Node::With(s, r) => s < bound && r < bound,
        }
    }

    /// Runtime check of [`Node::wf`], for callers outside verified code.
    pub fn check_wf(&self, bound: usize) -> (r: bool)
        ensures
            r == self.wf(bound as int),
    {
        match self {
            Node::Paren(i) => *i < bound,
            Node::NullLit => true,
            Node::BoolLit(_) => true,
            Node::IntLit(_) => true,
            Node::StrLit(_) => true,
            Node::PathLit(_, _) => true,
            Node::Ident(_) => true,
            Node::List(es) => check_ids(es, bound),
            Node::AttrSet(es) => check_entries(es, bound),
            Node::BinOp(_, l, r) => *l < bound && *r < bound,
            Node::IfElse(c, t, e) => *c < bound && *t < bound && *e < bound,
            Node::Assert(p, r) => *p < bound && *r < bound,
            Node::Apply(f, a) => *f < bound && *a < bound,
            Node::Lambda(_, b) => *b < bound,
            Node::LetIn(bs, b) => check_entries(bs, bound) && *b < bound,
            Node::With(s, r) => *s < bound && *r < bound,
        }
    }
}

/// Runtime check of [`ids_wf`].
pub fn check_ids(es: &Vec<usize>, bound: usize) -> (r: bool)
    ensures
        r == ids_wf(es@, bound as int),
{
    let mut k: usize = 0;
    while k < es.len()
        invariant
            k <= es@.len(),
            forall|j: int| 0 <= j < k ==> (#[trigger] es@[j]) < bound,
        decreases es@.len() - k,
    {
        if es[k] >= bound {
            return false;
        }
        k = k + 1;
    }
    true
}

/// Runtime check of [`entries_wf`].
pub fn check_entries(es: &Vec<(String, usize)>, bound: usize) -> (r: bool)
    ensures
        r == entries_wf(es@, bound as int),
{
    let mut k: usize = 0;
    while k < es.len()
        invariant
            k <= es@.len(),
            forall|j: int| 0 <= j < k ==> (#[trigger] es@[j]).1 < bound,
        decreases es@.len() - k,
    {
        if es[k].1 >= bound {
            return false;
        }
        k = k + 1;
    }
    true
}

} // verus!
