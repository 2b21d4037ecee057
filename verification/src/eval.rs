//! The evaluation session and the step-wise reduction engine.
//!
//! One [`Arena`] owns everything a session allocates: the syntax nodes the
//! front-end handed over, every term ever produced, and every thunk.  All three
//! stores are append-only; nothing is mutated or removed, so an index taken
//! earlier stays valid and stable for the whole session.
//!
//! A caller adopts a syntax node as a root thunk and repeatedly calls
//! [`Arena::step`], which performs at most one reduction somewhere in the chain
//! of thunks the root is blocked on.  [`Arena::as_value`] observes a thunk's
//! cached value without forcing anything.

use vstd::prelude::*;

use crate::syntax::{entries_wf, ids_wf, BinOpKind, Node};
use crate::term::{
    dup_entries, dup_env, same_env, strict_binop, Env, Term,
};

verus! {

/// A deferred, memoizing handle to the value of one syntax subtree.
///
/// `versions` is the append-only history of approximations computed so far,
/// most recent last; empty means the thunk has never been touched.  Once the
/// last entry is a weak-head-normal form, no further entry is ever appended.
#[derive(Debug)]
pub struct Thunk {
    /// The syntax node this thunk was built from.
    pub origin: usize,
    /// The scope the origin node's free identifiers resolve in.
    pub env: Env,
    /// Indices of the terms approximating this thunk's value, oldest first.
    pub versions: Vec<usize>,
}

impl Thunk {
    /// Wrap a syntax node; no evaluation is performed.
    pub fn new(origin: usize) -> (r: Thunk)
        ensures
            r.origin == origin,
            r.env.lets@ =~= Seq::<(String, usize)>::empty(),
            r.env.withs@ =~= Seq::<(String, usize)>::empty(),
            r.versions@ =~= Seq::<usize>::empty(),
    {
        Thunk { origin, env: Env::empty(), versions: Vec::new() }
    }

    /// The origin lies below `nbound`, the scope below `tbound`, and every
    /// recorded version below `mbound`.
    pub open spec fn wf(self, nbound: int, tbound: int, mbound: int) -> bool {
        self.origin < nbound && self.env.wf(tbound) && ids_wf(self.versions@, mbound)
    }
}

/// Two thunks are the same handle in the same state.
pub open spec fn same_thunk(a: Thunk, b: Thunk) -> bool {
    a.origin == b.origin && same_env(a.env, b.env) && a.versions@ == b.versions@
}

/// One evaluation session: the arena owning every node, term and thunk.
#[derive(Debug)]
pub struct Arena {
    /// The syntax tree, as handed over by the front-end.
    pub nodes: Vec<Node>,
    /// Every term allocated so far; append-only, terms are immutable.
    pub terms: Vec<Term>,
    /// Every thunk created so far; only a thunk's version history grows.
    pub thunks: Vec<Thunk>,
}

impl Arena {
    /// Every node refers only to nodes added before it (so the syntax is a
    /// forest), and every term and thunk refers only to stored indices.
    pub open spec fn wf(self) -> bool {
        &&& forall|i: int|
            0 <= i < self.nodes@.len() ==> (#[trigger] self.nodes@[i]).wf(i)
        &&& forall|i: int|
            0 <= i < self.thunks@.len() ==> (#[trigger] self.thunks@[i]).wf(
                self.nodes@.len() as int,
                self.thunks@.len() as int,
                self.terms@.len() as int,
            )
        &&& forall|i: int|
            0 <= i < self.terms@.len() ==> (#[trigger] self.terms@[i]).wf(
                self.nodes@.len() as int,
                self.thunks@.len() as int,
            )
    }

    /// The last version recorded for thunk `t`, if any.
    pub open spec fn top_of(self, t: int) -> Option<usize> {
        if self.thunks@[t].versions@.len() > 0 {
            Some(self.thunks@[t].versions@.last())
        } else {
            None
        }
    }

    /// Thunk `t` has reached a weak-head-normal form: no further reduction will
    /// ever touch it.
    pub open spec fn thunk_at_whnf(self, t: int) -> bool {
        let vs = self.thunks@[t].versions@;
        vs.len() > 0 && self.terms@[vs.last() as int].is_whnf_spec()
    }

    /// Thunk `t` has reached a terminal value.
    pub open spec fn thunk_at_value(self, t: int) -> bool {
        let vs = self.thunks@[t].versions@;
        vs.len() > 0 && self.terms@[vs.last() as int].is_value_spec()
    }

    /// The index of thunk `t`'s cached terminal value, if it has one.
    pub open spec fn value_of(self, t: int) -> Option<usize> {
        if self.thunk_at_value(t) {
            Some(self.thunks@[t].versions@.last())
        } else {
            None
        }
    }

    /// Nothing in the session changed.
    pub open spec fn unchanged(self, o: Arena) -> bool {
        &&& self.nodes@ == o.nodes@
        &&& self.terms@ == o.terms@
        &&& self.thunks@.len() == o.thunks@.len()
        &&& forall|i: int|
            0 <= i < o.thunks@.len() ==> same_thunk(#[trigger] self.thunks@[i], o.thunks@[i])
    }

    /// Exactly one reduction was recorded, on thunk `cur`: one version was
    /// appended to `cur` (and to no other existing thunk), at most one term was
    /// allocated, and any thunks created along the way start unevaluated.
    pub open spec fn advanced_one(self, o: Arena, cur: int) -> bool {
        &&& 0 <= cur < o.thunks@.len()
        &&& self.nodes@ == o.nodes@
        &&& o.terms@.is_prefix_of(self.terms@)
        &&& self.terms@.len() <= o.terms@.len() + 1
        &&& self.thunks@.len() >= o.thunks@.len()
        &&& forall|i: int|
            0 <= i < o.thunks@.len() && i != cur ==> same_thunk(
                #[trigger] self.thunks@[i],
                o.thunks@[i],
            )
        &&& self.thunks@[cur].origin == o.thunks@[cur].origin
        &&& same_env(self.thunks@[cur].env, o.thunks@[cur].env)
        &&& o.thunks@[cur].versions@.is_prefix_of(self.thunks@[cur].versions@)
        &&& self.thunks@[cur].versions@.len() == o.thunks@[cur].versions@.len() + 1
        &&& !o.thunk_at_whnf(cur)
        &&& forall|i: int|
            o.thunks@.len() <= i < self.thunks@.len() ==> (#[trigger] self.thunks@[i]).versions@.len()
                == 0
    }

    /// A fresh, empty session.
    pub fn new() -> (r: Arena)
        ensures
            r.wf(),
            r.nodes@ =~= Seq::<Node>::empty(),
            r.terms@ =~= Seq::<Term>::empty(),
            r.thunks@ =~= Seq::<Thunk>::empty(),
    {
        Arena { nodes: Vec::new(), terms: Vec::new(), thunks: Vec::new() }
    }

    /// How many syntax nodes the session holds.
    pub fn num_nodes(&self) -> (r: usize)
        ensures
            r == self.nodes@.len(),
    {
        self.nodes.len()
    }

    /// How many terms the session has allocated.
    pub fn num_terms(&self) -> (r: usize)
        ensures
            r == self.terms@.len(),
    {
        self.terms.len()
    }

    /// How many thunks the session has created.
    pub fn num_thunks(&self) -> (r: usize)
        ensures
            r == self.thunks@.len(),
    {
        self.thunks.len()
    }

    /// Add one syntax node; its children must already be stored.
    pub fn add_node(&mut self, n: Node) -> (id: usize)
        requires
            old(self).wf(),
            n.wf(old(self).nodes@.len() as int),
        ensures
            final(self).wf(),
            id == old(self).nodes@.len(),
            final(self).nodes@ == old(self).nodes@.push(n),
            final(self).terms@ == old(self).terms@,
            final(self).thunks@ == old(self).thunks@,
    {
        let id = self.nodes.len();
        self.nodes.push(n);
        proof {
            assert forall|i: int| 0 <= i < self.thunks@.len() implies (#[trigger] self.thunks@[i]).wf(
                self.nodes@.len() as int,
                self.thunks@.len() as int,
                self.terms@.len() as int,
            ) by {
                assert(old(self).thunks@[i].wf(
                    old(self).nodes@.len() as int,
                    old(self).thunks@.len() as int,
                    old(self).terms@.len() as int,
                ));
            }
            assert forall|i: int| 0 <= i < self.terms@.len() implies (#[trigger] self.terms@[i]).wf(
                self.nodes@.len() as int,
                self.thunks@.len() as int,
            ) by {
                assert(old(self).terms@[i].wf(
                    old(self).nodes@.len() as int,
                    old(self).thunks@.len() as int,
                ));
                lemma_term_wf_mono(
                    self.terms@[i],
                    old(self).nodes@.len() as int,
                    self.nodes@.len() as int,
                    old(self).thunks@.len() as int,
                    self.thunks@.len() as int,
                );
            }
        }
        id
    }

    /// Adopt a stored syntax node as a lazy root: a fresh thunk in the empty
    /// scope, with no evaluation performed.
    pub fn adopt(&mut self, origin: usize) -> (t: usize)
        requires
            old(self).wf(),
            origin < old(self).nodes@.len(),
        ensures
            final(self).wf(),
            t == old(self).thunks@.len(),
            final(self).thunks@.len() == old(self).thunks@.len() + 1,
            forall|i: int|
                0 <= i < old(self).thunks@.len() ==> same_thunk(
                    #[trigger] final(self).thunks@[i],
                    old(self).thunks@[i],
                ),
            final(self).thunks@[t as int].origin == origin,
            final(self).thunks@[t as int].env.lets@ == Seq::<(String, usize)>::empty(),
            final(self).thunks@[t as int].env.withs@ == Seq::<(String, usize)>::empty(),
            final(self).thunks@[t as int].versions@.len() == 0,
            final(self).nodes@ == old(self).nodes@,
            final(self).terms@ == old(self).terms@,
    {
        let t = self.thunks.len();
        self.thunks.push(Thunk::new(origin));
        proof {
            lemma_thunks_grow(*old(self), *self);
        }
        t
    }

    /// The length of thunk `t`'s version history.
    pub fn versions_len(&self, t: usize) -> (r: usize)
        requires
            t < self.thunks@.len(),
        ensures
            r == self.thunks@[t as int].versions@.len(),
    {
        self.thunks[t].versions.len()
    }

    /// The `k`-th recorded approximation of thunk `t`.
    pub fn version_at(&self, t: usize, k: usize) -> (r: usize)
        requires
            t < self.thunks@.len(),
            k < self.thunks@[t as int].versions@.len(),
        ensures
            r == self.thunks@[t as int].versions@[k as int],
    {
        self.thunks[t].versions[k]
    }

    /// Read a stored term.
    pub fn term(&self, tid: usize) -> (r: &Term)
        requires
            tid < self.terms@.len(),
        ensures
            *r == self.terms@[tid as int],
    {
        &self.terms[tid]
    }

    /// Whether thunk `t` is at a weak-head-normal form.
    pub fn is_whnf(&self, t: usize) -> (r: bool)
        requires
            self.wf(),
            t < self.thunks@.len(),
        ensures
            r == self.thunk_at_whnf(t as int),
    {
        proof {
            assert(self.thunks@[t as int].wf(
                self.nodes@.len() as int,
                self.thunks@.len() as int,
                self.terms@.len() as int,
            ));
        }
        let n = self.thunks[t].versions.len();
        if n == 0 {
            false
        } else {
            let tid = self.thunks[t].versions[n - 1];
            self.terms[tid].is_whnf()
        }
    }

    /// The cached terminal value of thunk `t`, if the last recorded version is
    /// one; pure and non-forcing.
    pub fn as_value(&self, t: usize) -> (r: Option<usize>)
        requires
            self.wf(),
            t < self.thunks@.len(),
        ensures
            r == self.value_of(t as int),
    {
        proof {
            assert(self.thunks@[t as int].wf(
                self.nodes@.len() as int,
                self.thunks@.len() as int,
                self.terms@.len() as int,
            ));
        }
        let n = self.thunks[t].versions.len();
        if n == 0 {
            None
        } else {
            let tid = self.thunks[t].versions[n - 1];
            if self.terms[tid].is_value() {
                Some(tid)
            } else {
                None
            }
        }
    }

    /// Whether thunk `t` holds a terminal value.
    pub fn is_value(&self, t: usize) -> (r: bool)
        requires
            self.wf(),
            t < self.thunks@.len(),
        ensures
            r == self.thunk_at_value(t as int),
    {
        self.as_value(t).is_some()
    }
}

impl Arena {
    /// The session only gained thunks, each still unevaluated; nothing else
    /// moved.
    pub open spec fn grew(self, o: Arena) -> bool {
        &&& self.nodes@ == o.nodes@
        &&& self.terms@ == o.terms@
        &&& self.thunks@.len() >= o.thunks@.len()
        &&& forall|i: int|
            0 <= i < o.thunks@.len() ==> same_thunk(#[trigger] self.thunks@[i], o.thunks@[i])
        &&& forall|i: int|
            o.thunks@.len() <= i < self.thunks@.len() ==> (#[trigger] self.thunks@[i]).versions@.len()
                == 0
    }

    /// How one session state may follow from another, however many reductions
    /// apart: the syntax is fixed, terms and version histories only grow, and
    /// a thunk that had reached a weak-head-normal form is untouched.
    pub open spec fn evolves(self, o: Arena) -> bool {
        &&& self.nodes@ == o.nodes@
        &&& o.terms@.is_prefix_of(self.terms@)
        &&& self.thunks@.len() >= o.thunks@.len()
        &&& forall|i: int|
            0 <= i < o.thunks@.len() ==> {
                &&& (#[trigger] self.thunks@[i]).origin == o.thunks@[i].origin
                &&& same_env(self.thunks@[i].env, o.thunks@[i].env)
                &&& o.thunks@[i].versions@.is_prefix_of(self.thunks@[i].versions@)
            }
        &&& forall|i: int|
            0 <= i < o.thunks@.len() && o.thunk_at_whnf(i) ==> same_thunk(
                #[trigger] self.thunks@[i],
                o.thunks@[i],
            )
    }
}

impl Arena {
    /// The term on top of thunk `t`'s version history.
    pub open spec fn top_term(self, t: int) -> Term {
        self.terms@[self.thunks@[t].versions@.last() as int]
    }

    /// The redex on top of thunk `t` cannot fire yet: the child its rule needs
    /// next has not reached a weak-head-normal form.  A blocked thunk can only
    /// be resolved by first stepping that child — or, when the chain of needed
    /// children comes back to a thunk already in it, by resolving the
    /// self-reference to the error value.
    pub open spec fn blocked(self, c: int) -> bool {
        match self.top_term(c) {
            Term::Wrapper(i) => !self.thunk_at_whnf(i as int),
            Term::Assert { predicate, result } => !self.thunk_at_whnf(predicate as int),
            Term::Condition { condition, then_result, else_result } => !self.thunk_at_whnf(
                condition as int,
            ),
            Term::Apply { function, argument } => !self.thunk_at_whnf(function as int),
            Term::With { attr_set, result, env } => !self.thunk_at_whnf(attr_set as int),
            Term::BinOp { operator, lhs, rhs } => !self.thunk_at_whnf(lhs as int) || (match operator {
                BinOpKind::And => self.top_term(lhs as int) == Term::Boolean(true)
                    && !self.thunk_at_whnf(rhs as int),
                BinOpKind::Or => self.top_term(lhs as int) == Term::Boolean(false)
                    && !self.thunk_at_whnf(rhs as int),
                BinOpKind::Implication => self.top_term(lhs as int) == Term::Boolean(true)
                    && !self.thunk_at_whnf(rhs as int),
                _ => !self.thunk_at_whnf(rhs as int),
            }),
            _ => false,
        }
    }

    /// The term an unblocked redex reduces to, for the rules that produce a
    /// plain term: assertions, conditionals and binary operators — including
    /// the error value on every type mismatch, and the short-circuit answers
    /// of the boolean operators.  (A wrapper shares its inner thunk's term
    /// instead, and applications and scope injections build a new thunk; those
    /// outcomes are stated by [`Arena::reduced`] directly.)
    pub open spec fn fired_term(self, c: int) -> Term {
        match self.top_term(c) {
            Term::Assert { predicate, result } => match self.top_term(predicate as int) {
                Term::Boolean(b) => if b {
                    Term::Wrapper(result)
                } else {
                    Term::Error
                },
                _ => Term::Error,
            },
            Term::Condition { condition, then_result, else_result } => match self.top_term(
                condition as int,
            ) {
                Term::Boolean(b) => if b {
                    Term::Wrapper(then_result)
                } else {
                    Term::Wrapper(else_result)
                },
                _ => Term::Error,
            },
            Term::BinOp { operator, lhs, rhs } => match operator {
                BinOpKind::And => match self.top_term(lhs as int) {
                    Term::Boolean(b) => if !b {
                        Term::Boolean(false)
                    } else {
                        match self.top_term(rhs as int) {
                            Term::Boolean(b2) => Term::Boolean(b2),
                            _ => Term::Error,
                        }
                    },
                    _ => Term::Error,
                },
                BinOpKind::Or => match self.top_term(lhs as int) {
                    Term::Boolean(b) => if b {
                        Term::Boolean(true)
                    } else {
                        match self.top_term(rhs as int) {
                            Term::Boolean(b2) => Term::Boolean(b2),
                            _ => Term::Error,
                        }
                    },
                    _ => Term::Error,
                },
                BinOpKind::Implication => match self.top_term(lhs as int) {
                    Term::Boolean(b) => if !b {
                        Term::Boolean(true)
                    } else {
                        match self.top_term(rhs as int) {
                            Term::Boolean(b2) => Term::Boolean(b2),
                            _ => Term::Error,
                        }
                    },
                    _ => Term::Error,
                },
                _ => crate::term::strict_binop_value(
                    operator,
                    self.top_term(lhs as int),
                    self.top_term(rhs as int),
                ),
            },
            // applying a value that is no function, or entering a value that is
            // no attribute set, is a type error
            Term::Apply { function, argument } => Term::Error,
            Term::With { attr_set, result, env } => Term::Error,
            _ => Term::Error,
        }
    }
}

impl Arena {
    /// Thunk `b` is the one child the rule of the redex on top of thunk `a`
    /// must see at a weak-head-normal form next, and has not: the edge the
    /// engine descends along.  A thunk with no recorded approximation yet has
    /// no top redex, so no edge leaves it.
    pub open spec fn needs(self, a: int, b: int) -> bool {
        self.thunks@[a].versions@.len() > 0 && match self.top_term(a) {
            Term::Wrapper(i) => b == i && !self.thunk_at_whnf(i as int),
            Term::Assert { predicate, result } => b == predicate && !self.thunk_at_whnf(
                predicate as int,
            ),
            Term::Condition { condition, then_result, else_result } => b == condition
                && !self.thunk_at_whnf(condition as int),
            Term::Apply { function, argument } => b == function && !self.thunk_at_whnf(
                function as int,
            ),
            Term::With { attr_set, result, env } => b == attr_set && !self.thunk_at_whnf(
                attr_set as int,
            ),
            Term::BinOp { operator, lhs, rhs } => {
                if !self.thunk_at_whnf(lhs as int) {
                    b == lhs
                } else {
                    b == rhs && !self.thunk_at_whnf(rhs as int) && (match operator {
                        BinOpKind::And => self.top_term(lhs as int) == Term::Boolean(true),
                        BinOpKind::Or => self.top_term(lhs as int) == Term::Boolean(false),
                        BinOpKind::Implication => self.top_term(lhs as int) == Term::Boolean(
                            true,
                        ),
                        _ => true,
                    })
                }
            },
            _ => false,
        }
    }
}

/// `path` walks the needed-child edges of `o` from thunk `a` to thunk `b`.
pub open spec fn needs_chain(o: Arena, path: Seq<int>, a: int, b: int) -> bool {
    &&& path.len() >= 1
    &&& path.first() == a
    &&& path.last() == b
    &&& forall|i: int| 0 <= i < path.len() - 1 ==> o.needs(#[trigger] path[i], path[i + 1])
}

/// What a step call reports of the stepped thunk: its newest approximation —
/// terminal or intermediate — when the thunk is finished or advanced this
/// call, and nothing while it stays blocked on a dependency.
pub open spec fn step_result(o: Arena, f: Arena, t: int) -> Option<usize> {
    if o.thunk_at_whnf(t) || f.thunks@[t].versions@.len() > o.thunks@[t].versions@.len() {
        f.top_of(t)
    } else {
        None
    }
}

/// The thunk indices below `n` that a descent has not visited yet.
spec fn unvisited(visited: Seq<usize>, n: int) -> Set<int> {
    Set::new(|v: int| 0 <= v < n && !visited.contains(v as usize))
}

/// What appending to a sequence does to membership.
proof fn lemma_push_contains(s: Seq<usize>, x: usize, y: usize)
    ensures
        s.push(x).contains(y) <==> (s.contains(y) || y == x),
{
    if s.contains(y) {
        let j = choose|j: int| 0 <= j < s.len() && s[j] == y;
        assert(s.push(x)[j] == y);
    }
    if y == x {
        assert(s.push(x)[s.len() as int] == y);
    }
    if s.push(x).contains(y) {
        let j = choose|j: int| 0 <= j < s.push(x).len() && s.push(x)[j] == y;
        if j < s.len() {
            assert(s[j] == y);
        }
    }
}

/// A scope extended by one binding form: the enclosing bindings kept in place,
/// one new lexical entry per bound name, each naming the thunk allocated for
/// it, in order.
pub open spec fn let_scope_ok(se: Env, e: Env, bs: Seq<(String, usize)>, base: int) -> bool {
    &&& se.withs@ == e.withs@
    &&& se.lets@.len() == e.lets@.len() + bs.len()
    &&& forall|i: int| 0 <= i < e.lets@.len() ==> #[trigger] se.lets@[i] == e.lets@[i]
    &&& forall|k: int|
        0 <= k < bs.len() ==> #[trigger] se.lets@[e.lets@.len() + k] == (
        bs[k].0,
        ((base + k) as usize),
        )
}

/// What classifying thunk `c` — synthesizing its first term from its origin
/// node in state `o`, yielding state `f` — produces, exactly, for every node
/// shape: which term is recorded, how many thunks are created, and each new
/// thunk's origin and scope.
pub open spec fn classified(o: Arena, f: Arena, c: int) -> bool {
    let org = o.thunks@[c].origin as int;
    let e = o.thunks@[c].env;
    let base = o.thunks@.len() as int;
    let pushed = f.terms@[f.thunks@[c].versions@.last() as int];
    match o.nodes@[org] {
        Node::Paren(i) => {
            &&& f.thunks@.len() == base + 1
            &&& pushed == Term::Wrapper(base as usize)
            &&& f.thunks@[base].origin == i
            &&& same_env(f.thunks@[base].env, e)
        },
        Node::NullLit => f.thunks@.len() == base && pushed == Term::Null,
        Node::BoolLit(b) => f.thunks@.len() == base && pushed == Term::Boolean(b),
        Node::IntLit(i) => f.thunks@.len() == base && pushed == Term::Integer(i),
        Node::StrLit(s) => f.thunks@.len() == base && pushed == Term::SimpleString(s),
        Node::PathLit(anchor, s) => f.thunks@.len() == base && pushed == Term::SimplePath(
            anchor,
            s,
        ),
        Node::Ident(nm) => f.thunks@.len() == base && (match e.lookup_spec(nm@) {
            Some(id) => pushed == Term::Wrapper(id),
            None => pushed == Term::Error,
        }),
        Node::List(es) => {
            &&& f.thunks@.len() == base + es@.len()
            &&& (match pushed {
                Term::List(ids) => ids@.len() == es@.len() && (forall|k: int|
                    0 <= k < es@.len() ==> #[trigger] ids@[k] == base + k),
                _ => false,
            })
            &&& forall|k: int|
                0 <= k < es@.len() ==> {
                    let th = #[trigger] f.thunks@[base + k];
                    th.origin == es@[k] && same_env(th.env, e)
                }
        },
        Node::AttrSet(es) => {
            if crate::term::distinct_names(es@) {
                &&& f.thunks@.len() == base + es@.len()
                &&& (match pushed {
                    Term::AttrSet(fs) => fs@.len() == es@.len() && (forall|k: int|
                        0 <= k < es@.len() ==> (#[trigger] fs@[k]).0 == es@[k].0 && fs@[k].1 == base
                            + k),
                    _ => false,
                })
                &&& forall|k: int|
                    0 <= k < es@.len() ==> {
                        let th = #[trigger] f.thunks@[base + k];
                        th.origin == es@[k].1 && same_env(th.env, e)
                    }
            } else {
                f.thunks@.len() == base && pushed == Term::Error
            }
        },
        Node::BinOp(op, l, r) => {
            &&& f.thunks@.len() == base + 2
            &&& pushed == (Term::BinOp {
                operator: op,
                lhs: base as usize,
                rhs: (base + 1) as usize,
            })
            &&& f.thunks@[base].origin == l && same_env(f.thunks@[base].env, e)
            &&& f.thunks@[base + 1].origin == r && same_env(f.thunks@[base + 1].env, e)
        },
        Node::IfElse(cnd, th, el) => {
            &&& f.thunks@.len() == base + 3
            &&& pushed == (Term::Condition {
                condition: base as usize,
                then_result: (base + 1) as usize,
                else_result: (base + 2) as usize,
            })
            &&& f.thunks@[base].origin == cnd && same_env(f.thunks@[base].env, e)
            &&& f.thunks@[base + 1].origin == th && same_env(f.thunks@[base + 1].env, e)
            &&& f.thunks@[base + 2].origin == el && same_env(f.thunks@[base + 2].env, e)
        },
        Node::Assert(p, r) => {
            &&& f.thunks@.len() == base + 2
            &&& pushed == (Term::Assert { predicate: base as usize, result: (base + 1) as usize })
            &&& f.thunks@[base].origin == p && same_env(f.thunks@[base].env, e)
            &&& f.thunks@[base + 1].origin == r && same_env(f.thunks@[base + 1].env, e)
        },
        Node::Apply(fx, ax) => {
            &&& f.thunks@.len() == base + 2
            &&& pushed == (Term::Apply { function: base as usize, argument: (base + 1) as usize })
            &&& f.thunks@[base].origin == fx && same_env(f.thunks@[base].env, e)
            &&& f.thunks@[base + 1].origin == ax && same_env(f.thunks@[base + 1].env, e)
        },
        Node::Lambda(p, b) => f.thunks@.len() == base && (match pushed {
            Term::Function { param, body, env } => param == p && body == b && same_env(env, e),
            _ => false,
        }),
        Node::LetIn(bs, b) => {
            if crate::term::distinct_names(bs@) {
                &&& f.thunks@.len() == base + bs@.len() + 1
                &&& pushed == Term::Wrapper(((base + bs@.len()) as usize))
                &&& forall|k: int|
                    0 <= k < bs@.len() ==> {
                        let th = #[trigger] f.thunks@[base + k];
                        th.origin == bs@[k].1 && let_scope_ok(th.env, e, bs@, base)
                    }
                &&& f.thunks@[base + bs@.len()].origin == b
                &&& let_scope_ok(f.thunks@[base + bs@.len()].env, e, bs@, base)
            } else {
                f.thunks@.len() == base && pushed == Term::Error
            }
        },
        Node::With(s, r) => {
            &&& f.thunks@.len() == base + 1
            &&& (match pushed {
                Term::With { attr_set, result, env } => attr_set == base && result == r
                    && same_env(env, e),
                _ => false,
            })
            &&& f.thunks@[base].origin == s && same_env(f.thunks@[base].env, e)
        },
    }
}

/// What reducing the redex on top of thunk `c` in state `o`, yielding state
/// `f`, produces, exactly.  A blocked redex (see [`Arena::blocked`]) can only
/// have been resolved to the error value, and only when the chain of needed
/// children starting at it comes back to it: genuine self-reference.  An
/// unblocked
/// wrapper adopts its inner thunk's term unchanged; an application of a
/// function value binds the argument thunk — unevaluated, call-by-need — over
/// the closure's captured scope and enters the body; entering a forced
/// attribute set injects its entries as fallback bindings; everything else
/// records exactly [`Arena::fired_term`].
pub open spec fn reduced(o: Arena, f: Arena, c: int) -> bool {
    let base = o.thunks@.len() as int;
    let pid = f.thunks@[c].versions@.last();
    let pushed = f.terms@[pid as int];
    if o.blocked(c) {
        &&& f.thunks@.len() == base
        &&& pushed == Term::Error
        &&& exists|path: Seq<int>| path.len() >= 2 && needs_chain(o, path, c, c)
    } else {
        match o.top_term(c) {
            Term::Wrapper(i) => f.thunks@.len() == base && pid == o.thunks@[i as int].versions@.last(),
            Term::Apply { function, argument } => match o.top_term(function as int) {
                Term::Function { param, body, env } => {
                    &&& f.thunks@.len() == base + 1
                    &&& pushed == Term::Wrapper(base as usize)
                    &&& f.thunks@[base].origin == body
                    &&& f.thunks@[base].env.lets@ == env.lets@.push((param, argument))
                    &&& f.thunks@[base].env.withs@ == env.withs@
                },
                _ => f.thunks@.len() == base && pushed == Term::Error,
            },
            Term::With { attr_set, result, env } => match o.top_term(attr_set as int) {
                Term::AttrSet(es) => {
                    &&& f.thunks@.len() == base + 1
                    &&& pushed == Term::Wrapper(base as usize)
                    &&& f.thunks@[base].origin == result
                    &&& f.thunks@[base].env.lets@ == env.lets@
                    &&& f.thunks@[base].env.withs@ == env.withs@ + es@
                },
                _ => f.thunks@.len() == base && pushed == Term::Error,
            },
            _ => f.thunks@.len() == base && pushed == o.fired_term(c),
        }
    }
}

/// Either the one-time classification of a never-touched thunk, or one
/// application of its top redex's rule: what one recorded reduction means.
pub open spec fn step_rel(o: Arena, f: Arena, c: int) -> bool {
    if o.thunks@[c].versions@.len() == 0 {
        classified(o, f, c)
    } else {
        reduced(o, f, c)
    }
}

/// A session is unchanged from itself.
proof fn lemma_unchanged_refl(o: Arena)
    ensures
        o.unchanged(o),
{
    assert forall|i: int| 0 <= i < o.thunks@.len() implies same_thunk(
        #[trigger] o.thunks@[i],
        o.thunks@[i],
    ) by {}
}

/// An unchanged session trivially evolves from the old one.
proof fn lemma_unchanged_evolves(f: Arena, o: Arena)
    requires
        f.unchanged(o),
    ensures
        f.evolves(o),
{
    assert(o.terms@.is_prefix_of(f.terms@)) by {
        assert(f.terms@ =~= o.terms@.subrange(0, o.terms@.len() as int));
    }
    assert forall|i: int| 0 <= i < o.thunks@.len() implies {
        &&& (#[trigger] f.thunks@[i]).origin == o.thunks@[i].origin
        &&& same_env(f.thunks@[i].env, o.thunks@[i].env)
        &&& o.thunks@[i].versions@.is_prefix_of(f.thunks@[i].versions@)
    } by {
        assert(same_thunk(f.thunks@[i], o.thunks@[i]));
        assert(f.thunks@[i].versions@ =~= o.thunks@[i].versions@.subrange(
            0,
            o.thunks@[i].versions@.len() as int,
        ));
    }
}

/// One recorded reduction is one way a session evolves.
proof fn lemma_advanced_evolves(f: Arena, o: Arena, cur: int)
    requires
        f.advanced_one(o, cur),
    ensures
        f.evolves(o),
{
    assert forall|i: int| 0 <= i < o.thunks@.len() implies {
        &&& (#[trigger] f.thunks@[i]).origin == o.thunks@[i].origin
        &&& same_env(f.thunks@[i].env, o.thunks@[i].env)
        &&& o.thunks@[i].versions@.is_prefix_of(f.thunks@[i].versions@)
    } by {
        if i != cur {
            assert(same_thunk(f.thunks@[i], o.thunks@[i]));
            assert(f.thunks@[i].versions@ =~= o.thunks@[i].versions@.subrange(
                0,
                o.thunks@[i].versions@.len() as int,
            ));
        }
    }
    assert forall|i: int| 0 <= i < o.thunks@.len() && o.thunk_at_whnf(i) implies same_thunk(
        #[trigger] f.thunks@[i],
        o.thunks@[i],
    ) by {
        assert(i != cur);
    }
}

/// A reduction recorded after the session merely gained fresh thunks counts as
/// one reduction from the start.
proof fn lemma_advance_after_growth(o: Arena, m: Arena, f: Arena, cur: int)
    requires
        m.grew(o),
        f.advanced_one(m, cur),
        0 <= cur < o.thunks@.len(),
    ensures
        f.advanced_one(o, cur),
{
    assert(o.terms@.is_prefix_of(f.terms@)) by {
        assert(m.terms@ == o.terms@);
    }
    assert forall|i: int| 0 <= i < o.thunks@.len() && i != cur implies same_thunk(
        #[trigger] f.thunks@[i],
        o.thunks@[i],
    ) by {
        assert(same_thunk(f.thunks@[i], m.thunks@[i]));
        assert(same_thunk(m.thunks@[i], o.thunks@[i]));
    }
    assert(same_thunk(m.thunks@[cur], o.thunks@[cur]));
    assert(!o.thunk_at_whnf(cur)) by {
        assert(!m.thunk_at_whnf(cur));
    }
    assert forall|i: int| o.thunks@.len() <= i < f.thunks@.len() implies (#[trigger] f.thunks@[i]).versions@.len()
        == 0 by {
        if i < m.thunks@.len() {
            assert(m.thunks@[i].versions@.len() == 0);
            assert(i != cur);
            assert(same_thunk(f.thunks@[i], m.thunks@[i]));
        }
    }
}

/// Well-formedness of every stored thunk survives appending a thunk whose own
/// scope and versions are within bounds.
proof fn lemma_thunks_grow(o: Arena, n: Arena)
    requires
        o.wf(),
        n.nodes@ == o.nodes@,
        n.terms@ == o.terms@,
        n.thunks@.len() == o.thunks@.len() + 1,
        forall|i: int|
            0 <= i < o.thunks@.len() ==> same_thunk(#[trigger] n.thunks@[i], o.thunks@[i]),
        n.thunks@.last().wf(n.nodes@.len() as int, n.thunks@.len() as int, n.terms@.len() as int),
    ensures
        n.wf(),
{
    assert forall|i: int| 0 <= i < n.thunks@.len() implies (#[trigger] n.thunks@[i]).wf(
        n.nodes@.len() as int,
        n.thunks@.len() as int,
        n.terms@.len() as int,
    ) by {
        if i < o.thunks@.len() {
            assert(o.thunks@[i].wf(
                o.nodes@.len() as int,
                o.thunks@.len() as int,
                o.terms@.len() as int,
            ));
            assert(same_thunk(n.thunks@[i], o.thunks@[i]));
            lemma_thunk_wf_mono(
                o.thunks@[i],
                n.thunks@[i],
                o.nodes@.len() as int,
                o.thunks@.len() as int,
                n.thunks@.len() as int,
                o.terms@.len() as int,
            );
        }
    }
    assert forall|i: int| 0 <= i < n.terms@.len() implies (#[trigger] n.terms@[i]).wf(
        n.nodes@.len() as int,
        n.thunks@.len() as int,
    ) by {
        assert(o.terms@[i].wf(o.nodes@.len() as int, o.thunks@.len() as int));
        lemma_term_wf_mono(
            n.terms@[i],
            o.nodes@.len() as int,
            n.nodes@.len() as int,
            o.thunks@.len() as int,
            n.thunks@.len() as int,
        );
    }
}

impl Arena {
    /// Record one freshly allocated term as thunk `cur`'s next approximation.
    fn push_new_term(&mut self, cur: usize, tm: Term)
        requires
            old(self).wf(),
            cur < old(self).thunks@.len(),
            !old(self).thunk_at_whnf(cur as int),
            tm.wf(old(self).nodes@.len() as int, old(self).thunks@.len() as int),
        ensures
            final(self).wf(),
            final(self).advanced_one(*old(self), cur as int),
            final(self).thunks@.len() == old(self).thunks@.len(),
            final(self).terms@ == old(self).terms@.push(tm),
            final(self).thunks@[cur as int].versions@ == old(self).thunks@[cur as int].versions@.push(
                (old(self).terms@.len() as usize),
            ),
            final(self).terms@[final(self).thunks@[cur as int].versions@.last() as int] == tm,
    {
        let tid = self.terms.len();
        self.terms.push(tm);
        self.thunks[cur].versions.push(tid);
        proof {
            lemma_push_version_wf(*old(self), *self, cur as int, tid as int);
            assert(old(self).terms@.is_prefix_of(self.terms@)) by {
                assert(old(self).terms@ =~= self.terms@.subrange(0, old(self).terms@.len() as int));
            }
            assert(old(self).thunks@[cur as int].versions@.is_prefix_of(
                self.thunks@[cur as int].versions@,
            )) by {
                assert(old(self).thunks@[cur as int].versions@ =~= self.thunks@[cur as int].versions@.subrange(
                    0,
                    old(self).thunks@[cur as int].versions@.len() as int,
                ));
            }
        }
    }

    /// Record an already-stored term as thunk `cur`'s next approximation: the
    /// transparent pass-through used when a wrapper adopts its inner thunk's
    /// result, sharing it without allocating.
    fn push_shared(&mut self, cur: usize, tid: usize)
        requires
            old(self).wf(),
            cur < old(self).thunks@.len(),
            !old(self).thunk_at_whnf(cur as int),
            tid < old(self).terms@.len(),
        ensures
            final(self).wf(),
            final(self).advanced_one(*old(self), cur as int),
            final(self).thunks@.len() == old(self).thunks@.len(),
            final(self).terms@ == old(self).terms@,
            final(self).thunks@[cur as int].versions@ == old(self).thunks@[cur as int].versions@.push(
                tid,
            ),
            final(self).thunks@[cur as int].versions@.last() == tid,
    {
        self.thunks[cur].versions.push(tid);
        proof {
            lemma_push_version_wf(*old(self), *self, cur as int, tid as int);
            assert(old(self).terms@.is_prefix_of(self.terms@)) by {
                assert(old(self).terms@ =~= self.terms@.subrange(0, old(self).terms@.len() as int));
            }
            assert(old(self).thunks@[cur as int].versions@.is_prefix_of(
                self.thunks@[cur as int].versions@,
            )) by {
                assert(old(self).thunks@[cur as int].versions@ =~= self.thunks@[cur as int].versions@.subrange(
                    0,
                    old(self).thunks@[cur as int].versions@.len() as int,
                ));
            }
        }
    }

    /// Create one unevaluated thunk for `origin` in scope `env`.
    fn alloc_thunk(&mut self, origin: usize, env: &Env) -> (id: usize)
        requires
            old(self).wf(),
            origin < old(self).nodes@.len(),
            env.wf(old(self).thunks@.len() as int),
        ensures
            final(self).wf(),
            final(self).grew(*old(self)),
            final(self).nodes@ == old(self).nodes@,
            final(self).terms@ == old(self).terms@,
            final(self).thunks@.len() == old(self).thunks@.len() + 1,
            id == old(self).thunks@.len(),
            final(self).thunks@[id as int].origin == origin,
            same_env(final(self).thunks@[id as int].env, *env),
            final(self).thunks@[id as int].versions@.len() == 0,
    {
        let id = self.thunks.len();
        self.thunks.push(Thunk { origin, env: dup_env(env), versions: Vec::new() });
        proof {
            lemma_thunks_grow(*old(self), *self);
        }
        id
    }

    /// Create one unevaluated thunk per origin node, all in scope `env`,
    /// returning their indices in order.
    fn alloc_batch(&mut self, origins: &Vec<usize>, env: &Env) -> (ids: Vec<usize>)
        requires
            old(self).wf(),
            ids_wf(origins@, old(self).nodes@.len() as int),
            env.wf(old(self).thunks@.len() as int),
        ensures
            final(self).wf(),
            final(self).grew(*old(self)),
            final(self).nodes@ == old(self).nodes@,
            final(self).terms@ == old(self).terms@,
            final(self).thunks@.len() == old(self).thunks@.len() + origins@.len(),
            ids@.len() == origins@.len(),
            forall|k: int| 0 <= k < origins@.len() ==> #[trigger] ids@[k] == old(self).thunks@.len() + k,
            forall|k: int|
                0 <= k < origins@.len() ==> {
                    let th = #[trigger] final(self).thunks@[old(self).thunks@.len() + k];
                    &&& th.origin == origins@[k]
                    &&& same_env(th.env, *env)
                    &&& th.versions@.len() == 0
                },
    {
        let mut ids: Vec<usize> = Vec::new();
        let mut k: usize = 0;
        while k < origins.len()
            invariant
                k <= origins@.len(),
                self.wf(),
                self.grew(*old(self)),
                self.nodes@ == old(self).nodes@,
                self.terms@ == old(self).terms@,
                self.thunks@.len() == old(self).thunks@.len() + k,
                ids_wf(origins@, old(self).nodes@.len() as int),
                env.wf(old(self).thunks@.len() as int),
                ids@.len() == k,
                forall|j: int| 0 <= j < k ==> #[trigger] ids@[j] == old(self).thunks@.len() + j,
                forall|j: int|
                    0 <= j < k ==> {
                        let th = #[trigger] self.thunks@[old(self).thunks@.len() + j];
                        &&& th.origin == origins@[j]
                        &&& same_env(th.env, *env)
                        &&& th.versions@.len() == 0
                    },
            decreases origins@.len() - k,
        {
            let ghost mid = *self;
            let id = self.alloc_thunk(origins[k], env);
            ids.push(id);
            proof {
                lemma_grew_trans(*self, mid, *old(self));
            }
            k = k + 1;
        }
        ids
    }

    /// Replace the scope of a thunk nothing has observed yet.
    fn set_env(&mut self, t: usize, env: Env)
        requires
            old(self).wf(),
            t < old(self).thunks@.len(),
            env.wf(old(self).thunks@.len() as int),
        ensures
            final(self).wf(),
            final(self).nodes@ == old(self).nodes@,
            final(self).terms@ == old(self).terms@,
            final(self).thunks@.len() == old(self).thunks@.len(),
            forall|i: int|
                0 <= i < old(self).thunks@.len() && i != t ==> same_thunk(
                    #[trigger] final(self).thunks@[i],
                    old(self).thunks@[i],
                ),
            final(self).thunks@[t as int].origin == old(self).thunks@[t as int].origin,
            final(self).thunks@[t as int].versions@ == old(self).thunks@[t as int].versions@,
            same_env(final(self).thunks@[t as int].env, env),
    {
        self.thunks[t].env = env;
        proof {
            assert forall|i: int| 0 <= i < self.thunks@.len() implies (#[trigger] self.thunks@[i]).wf(
                self.nodes@.len() as int,
                self.thunks@.len() as int,
                self.terms@.len() as int,
            ) by {
                assert(old(self).thunks@[i].wf(
                    old(self).nodes@.len() as int,
                    old(self).thunks@.len() as int,
                    old(self).terms@.len() as int,
                ));
            }
        }
    }
}

/// What one look at a blocked thunk's top redex determines.
enum Decision {
    /// The rule is blocked on this not-yet-normal child: step it instead.
    Goto(usize),
    /// The rule produced a new term.
    Put(Term),
    /// The rule adopts an existing term unchanged: the transparent
    /// pass-through of a wrapper whose inner thunk is done.
    Share(usize),
    /// Apply a function value: bind the argument thunk over the closure's
    /// captured scope and enter the body.
    Beta { param: String, body: usize, env: Env, argument: usize },
    /// Enter the body of a scope injection: the forced attribute set's entries
    /// become fallback bindings behind every lexical one.
    Enter { entries: Vec<(String, usize)>, result: usize, env: Env },
}

impl Arena {
    /// A decision is faithful to the rule of the redex on top of thunk `c`:
    /// descent happens exactly when the rule is blocked, and whatever fires
    /// matches the outcome [`reduced`] will demand.
    spec fn decision_sound(self, c: int, d: Decision) -> bool {
        match d {
            Decision::Goto(ch) => self.blocked(c) && self.needs(c, ch as int),
            Decision::Put(tm) => !self.blocked(c) && tm == self.fired_term(c) && (match self.top_term(
                c,
            ) {
                Term::Wrapper(i) => false,
                Term::Apply { function, argument } => !(self.top_term(function as int) is Function),
                Term::With { attr_set, result, env } => !(self.top_term(attr_set as int) is AttrSet),
                _ => true,
            }),
            Decision::Share(tid) => !self.blocked(c) && (match self.top_term(c) {
                Term::Wrapper(i) => tid == self.thunks@[i as int].versions@.last(),
                _ => false,
            }),
            Decision::Beta { param, body, env, argument } => !self.blocked(c) && (match self.top_term(
                c,
            ) {
                Term::Apply { function, argument: a0 } => argument == a0 && (match self.top_term(
                    function as int,
                ) {
                    Term::Function { param: p0, body: b0, env: e0 } => param == p0 && body == b0
                        && same_env(env, e0),
                    _ => false,
                }),
                _ => false,
            }),
            Decision::Enter { entries, result, env } => !self.blocked(c) && (match self.top_term(c) {
                Term::With { attr_set, result: r0, env: e0 } => result == r0 && same_env(env, e0)
                    && (match self.top_term(attr_set as int) {
                    Term::AttrSet(es) => entries@ == es@,
                    _ => false,
                }),
                _ => false,
            }),
        }
    }

    /// Whatever a decision carries points into the session's stores.
    spec fn decision_wf(self, d: Decision) -> bool {
        match d {
            Decision::Goto(c) => c < self.thunks@.len() && !self.thunk_at_whnf(c as int),
            Decision::Put(tm) => tm.wf(self.nodes@.len() as int, self.thunks@.len() as int),
            Decision::Share(tid) => tid < self.terms@.len(),
            Decision::Beta { param, body, env, argument } => body < self.nodes@.len() && env.wf(
                self.thunks@.len() as int,
            ) && argument < self.thunks@.len(),
            Decision::Enter { entries, result, env } => entries_wf(
                entries@,
                self.thunks@.len() as int,
            ) && result < self.nodes@.len() && env.wf(self.thunks@.len() as int),
        }
    }

    /// The index of thunk `t`'s newest approximation, if it has one.
    fn top_id(&self, t: usize) -> (r: Option<usize>)
        requires
            self.wf(),
            t < self.thunks@.len(),
        ensures
            r == self.top_of(t as int),
            match r {
                Some(v) => v < self.terms@.len(),
                None => true,
            },
    {
        proof {
            assert(self.thunks@[t as int].wf(
                self.nodes@.len() as int,
                self.thunks@.len() as int,
                self.terms@.len() as int,
            ));
        }
        let n = self.thunks[t].versions.len();
        if n == 0 {
            None
        } else {
            Some(self.thunks[t].versions[n - 1])
        }
    }

    /// Force the right operand of a boolean operator whose left operand did not
    /// settle the answer, then demand a boolean of it.
    fn demand_bool(&self, r: usize) -> (d: Decision)
        requires
            self.wf(),
            r < self.thunks@.len(),
        ensures
            self.decision_wf(d),
            match d {
                Decision::Goto(c) => c == r && !self.thunk_at_whnf(r as int),
                Decision::Put(tm) => self.thunk_at_whnf(r as int) && tm == (match self.top_term(
                    r as int,
                ) {
                    Term::Boolean(b) => Term::Boolean(b),
                    _ => Term::Error,
                }),
                _ => false,
            },
    {
        match self.top_id(r) {
            None => Decision::Goto(r),
            Some(rtid) => {
                if !self.terms[rtid].is_whnf() {
                    Decision::Goto(r)
                } else {
                    match &self.terms[rtid] {
                        Term::Boolean(b) => Decision::Put(Term::Boolean(*b)),
                        _ => Decision::Put(Term::Error),
                    }
                }
            },
        }
    }

    /// Apply the reduction rule of the redex on top of thunk `cur`, as far as
    /// one look can: either the rule is blocked on a child that must be stepped
    /// first, or it determines `cur`'s next approximation.  Laziness lives
    /// here: a rule forces only the children it needs, in the order it needs
    /// them, and stops the instant enough is known.
    fn decide(&self, cur: usize) -> (d: Decision)
        requires
            self.wf(),
            cur < self.thunks@.len(),
            self.thunks@[cur as int].versions@.len() > 0,
            !self.thunk_at_whnf(cur as int),
        ensures
            self.decision_wf(d),
            self.decision_sound(cur as int, d),
    {
        proof {
            assert(self.thunks@[cur as int].wf(
                self.nodes@.len() as int,
                self.thunks@.len() as int,
                self.terms@.len() as int,
            ));
        }
        let vlen = self.thunks[cur].versions.len();
        let top = self.thunks[cur].versions[vlen - 1];
        proof {
            assert(top == self.thunks@[cur as int].versions@.last());
            assert(self.terms@[top as int].wf(self.nodes@.len() as int, self.thunks@.len() as int));
            assert(!self.terms@[top as int].is_whnf_spec());
        }
        match &self.terms[top] {
            Term::Wrapper(inner) => {
                let c = *inner;
                match self.top_id(c) {
                    None => Decision::Goto(c),
                    Some(ctid) => {
                        if self.terms[ctid].is_whnf() {
                            Decision::Share(ctid)
                        } else {
                            Decision::Goto(c)
                        }
                    },
                }
            },
            Term::Assert { predicate, result } => {
                let p = *predicate;
                let res = *result;
                match self.top_id(p) {
                    None => Decision::Goto(p),
                    Some(ptid) => {
                        if !self.terms[ptid].is_whnf() {
                            Decision::Goto(p)
                        } else {
                            match &self.terms[ptid] {
                                Term::Boolean(b) => {
                                    if *b {
                                        Decision::Put(Term::Wrapper(res))
                                    } else {
                                        Decision::Put(Term::Error)
                                    }
                                },
                                _ => Decision::Put(Term::Error),
                            }
                        }
                    },
                }
            },
            Term::Condition { condition, then_result, else_result } => {
                let c = *condition;
                let th = *then_result;
                let el = *else_result;
                match self.top_id(c) {
                    None => Decision::Goto(c),
                    Some(ctid) => {
                        if !self.terms[ctid].is_whnf() {
                            Decision::Goto(c)
                        } else {
                            match &self.terms[ctid] {
                                Term::Boolean(b) => {
                                    if *b {
                                        Decision::Put(Term::Wrapper(th))
                                    } else {
                                        Decision::Put(Term::Wrapper(el))
                                    }
                                },
                                _ => Decision::Put(Term::Error),
                            }
                        }
                    },
                }
            },
            Term::BinOp { operator, lhs, rhs } => {
                let op = *operator;
                let l = *lhs;
                let r = *rhs;
                match self.top_id(l) {
                    None => Decision::Goto(l),
                    Some(ltid) => {
                        if !self.terms[ltid].is_whnf() {
                            Decision::Goto(l)
                        } else {
                            match op {
                                crate::syntax::BinOpKind::And => match &self.terms[ltid] {
                                    Term::Boolean(b) => {
                                        if !*b {
                                            Decision::Put(Term::Boolean(false))
                                        } else {
                                            self.demand_bool(r)
                                        }
                                    },
                                    _ => Decision::Put(Term::Error),
                                },
                                crate::syntax::BinOpKind::Or => match &self.terms[ltid] {
                                    Term::Boolean(b) => {
                                        if *b {
                                            Decision::Put(Term::Boolean(true))
                                        } else {
                                            self.demand_bool(r)
                                        }
                                    },
                                    _ => Decision::Put(Term::Error),
                                },
                                crate::syntax::BinOpKind::Implication => match &self.terms[ltid] {
                                    Term::Boolean(b) => {
                                        if !*b {
                                            Decision::Put(Term::Boolean(true))
                                        } else {
                                            self.demand_bool(r)
                                        }
                                    },
                                    _ => Decision::Put(Term::Error),
                                },
                                _ => match self.top_id(r) {
                                    None => Decision::Goto(r),
                                    Some(rtid) => {
                                        if !self.terms[rtid].is_whnf() {
                                            Decision::Goto(r)
                                        } else {
                                            let res = strict_binop(
                                                op,
                                                &self.terms[ltid],
                                                &self.terms[rtid],
                                            );
                                            proof {
                                                lemma_term_wf_mono(
                                                    res,
                                                    0,
                                                    self.nodes@.len() as int,
                                                    0,
                                                    self.thunks@.len() as int,
                                                );
                                            }
                                            Decision::Put(res)
                                        }
                                    },
                                },
                            }
                        }
                    },
                }
            },
            Term::Apply { function, argument } => {
                let f = *function;
                let a = *argument;
                match self.top_id(f) {
                    None => Decision::Goto(f),
                    Some(ftid) => {
                        if !self.terms[ftid].is_whnf() {
                            Decision::Goto(f)
                        } else {
                            proof {
                                assert(self.terms@[ftid as int].wf(
                                    self.nodes@.len() as int,
                                    self.thunks@.len() as int,
                                ));
                            }
                            match &self.terms[ftid] {
                                Term::Function { param, body, env } => Decision::Beta {
                                    param: param.clone(),
                                    body: *body,
                                    env: dup_env(env),
                                    argument: a,
                                },
                                _ => Decision::Put(Term::Error),
                            }
                        }
                    },
                }
            },
            Term::With { attr_set, result, env } => {
                let s = *attr_set;
                let res = *result;
                let e = dup_env(env);
                match self.top_id(s) {
                    None => Decision::Goto(s),
                    Some(stid) => {
                        if !self.terms[stid].is_whnf() {
                            Decision::Goto(s)
                        } else {
                            proof {
                                assert(self.terms@[stid as int].wf(
                                    self.nodes@.len() as int,
                                    self.thunks@.len() as int,
                                ));
                            }
                            match &self.terms[stid] {
                                Term::AttrSet(entries) => Decision::Enter {
                                    entries: dup_entries(entries),
                                    result: res,
                                    env: e,
                                },
                                _ => Decision::Put(Term::Error),
                            }
                        }
                    },
                }
            },
            _ => {
                proof {
                    assert(false);
                }
                vstd::pervasive::unreached()
            },
        }
    }
}

/// What the one-time look at a syntax node extracts before any allocation.
enum Shape {
    /// Semantically transparent wrapping around one child node.
    Transparent(usize),
    /// A literal that is already a terminal value.
    Lit(Term),
    /// An identifier, already resolved in the enclosing scope.
    Name(Option<usize>),
    /// A list's element nodes.
    Elems(Vec<usize>),
    /// An attribute set's names and value nodes, and whether the names are
    /// distinct.
    Fields(Vec<String>, Vec<usize>, bool),
    /// A binary operator and its operand nodes.
    Operands(crate::syntax::BinOpKind, usize, usize),
    /// A conditional's condition, consequence and alternative nodes.
    Branches(usize, usize, usize),
    /// An assertion's predicate and result nodes.
    Guarded(usize, usize),
    /// An application's function and argument nodes.
    Call(usize, usize),
    /// A lambda's parameter and body node.
    Abstraction(String, usize),
    /// A binding form's names, value nodes, body node, and whether the names
    /// are distinct.
    Bindings(Vec<String>, Vec<usize>, usize, bool),
    /// A scope injection's attribute-set node and body node.
    Injection(usize, usize),
}

/// Copy a list of indices.
fn dup_ids(v: &Vec<usize>) -> (r: Vec<usize>)
    ensures
        r@ == v@,
{
    let mut out: Vec<usize> = Vec::new();
    let mut k: usize = 0;
    while k < v.len()
        invariant
            k <= v@.len(),
            out@ =~= v@.subrange(0, k as int),
        decreases v@.len() - k,
    {
        out.push(v[k]);
        k = k + 1;
    }
    proof {
        assert(v@.subrange(0, v@.len() as int) =~= v@);
    }
    out
}

/// Split a binding list into its names and its node indices.
fn split_entries(es: &Vec<(String, usize)>) -> (r: (Vec<String>, Vec<usize>))
    ensures
        r.0@.len() == es@.len(),
        r.1@.len() == es@.len(),
        forall|k: int| 0 <= k < es@.len() ==> (#[trigger] r.0@[k]) == es@[k].0,
        forall|k: int| 0 <= k < es@.len() ==> (#[trigger] r.1@[k]) == es@[k].1,
{
    let mut names: Vec<String> = Vec::new();
    let mut ids: Vec<usize> = Vec::new();
    let mut k: usize = 0;
    while k < es.len()
        invariant
            k <= es@.len(),
            names@.len() == k,
            ids@.len() == k,
            forall|j: int| 0 <= j < k ==> (#[trigger] names@[j]) == es@[j].0,
            forall|j: int| 0 <= j < k ==> (#[trigger] ids@[j]) == es@[j].1,
        decreases es@.len() - k,
    {
        names.push(es[k].0.clone());
        ids.push(es[k].1);
        k = k + 1;
    }
    (names, ids)
}

/// Pair names back up with the thunks allocated for them.
fn zip_entries(names: &Vec<String>, ids: &Vec<usize>) -> (r: Vec<(String, usize)>)
    requires
        names@.len() == ids@.len(),
    ensures
        r@.len() == names@.len(),
        forall|k: int|
            0 <= k < names@.len() ==> (#[trigger] r@[k]).0 == names@[k] && r@[k].1 == ids@[k],
{
    let mut out: Vec<(String, usize)> = Vec::new();
    let mut k: usize = 0;
    while k < names.len()
        invariant
            k <= names@.len(),
            names@.len() == ids@.len(),
            out@.len() == k,
            forall|j: int|
                0 <= j < k ==> (#[trigger] out@[j]).0 == names@[j] && out@[j].1 == ids@[j],
        decreases names@.len() - k,
    {
        out.push((names[k].clone(), ids[k]));
        k = k + 1;
    }
    out
}

impl Arena {
    /// Synthesize thunk `cur`'s first term from its origin node's shape: a
    /// literal becomes a value outright; a compound node becomes the
    /// corresponding redex or weak-head-normal form over freshly created,
    /// still-unevaluated child thunks.  No child is evaluated here.
    #[verifier::loop_isolation(false)]
    fn classify(&mut self, cur: usize)
        requires
            old(self).wf(),
            cur < old(self).thunks@.len(),
            old(self).thunks@[cur as int].versions@.len() == 0,
        ensures
            final(self).wf(),
            final(self).advanced_one(*old(self), cur as int),
            classified(*old(self), *final(self), cur as int),
    {
        proof {
            assert(old(self).thunks@[cur as int].wf(
                old(self).nodes@.len() as int,
                old(self).thunks@.len() as int,
                old(self).terms@.len() as int,
            ));
        }
        let org = self.thunks[cur].origin;
        let env_cur = dup_env(&self.thunks[cur].env);
        proof {
            assert(self.nodes@[org as int].wf(org as int));
        }
        // Read the origin node once, copying out what the rule needs.
        let shape = match &self.nodes[org] {
            Node::Paren(i) => Shape::Transparent(*i),
            Node::NullLit => Shape::Lit(Term::Null),
            Node::BoolLit(b) => Shape::Lit(Term::Boolean(*b)),
            Node::IntLit(i) => Shape::Lit(Term::Integer(*i)),
            Node::StrLit(s) => Shape::Lit(Term::SimpleString(s.clone())),
            Node::PathLit(a, s) => Shape::Lit(Term::SimplePath(*a, s.clone())),
            Node::Ident(n) => Shape::Name(env_cur.lookup(n)),
            Node::List(es) => Shape::Elems(dup_ids(es)),
            Node::AttrSet(es) => {
                let d = crate::term::check_distinct_names(es);
                let (names, ids) = split_entries(es);
                Shape::Fields(names, ids, d)
            },
            Node::BinOp(op, l, r) => Shape::Operands(*op, *l, *r),
            Node::IfElse(c, t, e) => Shape::Branches(*c, *t, *e),
            Node::Assert(p, r) => Shape::Guarded(*p, *r),
            Node::Apply(f, a) => Shape::Call(*f, *a),
            Node::Lambda(p, b) => Shape::Abstraction(p.clone(), *b),
            Node::LetIn(bs, b) => {
                let d = crate::term::check_distinct_names(bs);
                let (names, ids) = split_entries(bs);
                Shape::Bindings(names, ids, *b, d)
            },
            Node::With(s, r) => Shape::Injection(*s, *r),
        };
        // Build the first term, allocating the child thunks it names.
        match shape {
            Shape::Transparent(i) => {
                let inner = self.alloc_thunk(i, &env_cur);
                let ghost mid = *self;
                self.push_new_term(cur, Term::Wrapper(inner));
                proof {
                    lemma_advance_after_growth(*old(self), mid, *self, cur as int);
                }
            },
            Shape::Lit(tm) => {
                self.push_new_term(cur, tm);
            },
            Shape::Name(resolved) => {
                proof {
                    match old(self).nodes@[org as int] {
                        Node::Ident(nm) => {
                            crate::term::lemma_lookup_bound(
                                env_cur,
                                nm@,
                                old(self).thunks@.len() as int,
                            );
                        },
                        _ => {},
                    }
                }
                match resolved {
                    Some(tid) => {
                        self.push_new_term(cur, Term::Wrapper(tid));
                    },
                    None => {
                        // A free identifier bound nowhere in scope is a
                        // language-level error value, not a fault.
                        self.push_new_term(cur, Term::Error);
                    },
                }
            },
            Shape::Elems(origins) => {
                let ids = self.alloc_batch(&origins, &env_cur);
                let ghost mid = *self;
                proof {
                    assert forall|k: int| 0 <= k < ids@.len() implies (#[trigger] ids@[k])
                        < mid.thunks@.len() by {
                        assert(ids@[k] == old(self).thunks@.len() + k);
                    }
                }
                self.push_new_term(cur, Term::List(ids));
                proof {
                    lemma_advance_after_growth(*old(self), mid, *self, cur as int);
                }
            },
            Shape::Fields(names, origins, distinct) => {
                if !distinct {
                    // Two attributes under one name: a language-level error.
                    self.push_new_term(cur, Term::Error);
                } else {
                    let ids = self.alloc_batch(&origins, &env_cur);
                    let ghost mid = *self;
                    let entries = zip_entries(&names, &ids);
                    proof {
                        assert forall|k: int| 0 <= k < entries@.len() implies (#[trigger] entries@[k]).1
                            < mid.thunks@.len() by {
                            assert(entries@[k].1 == ids@[k]);
                            assert(ids@[k] == old(self).thunks@.len() + k);
                        }
                    }
                    self.push_new_term(cur, Term::AttrSet(entries));
                    proof {
                        lemma_advance_after_growth(*old(self), mid, *self, cur as int);
                    }
                }
            },
            Shape::Operands(op, l, r) => {
                let a = self.alloc_thunk(l, &env_cur);
                let ghost m1 = *self;
                let b = self.alloc_thunk(r, &env_cur);
                proof {
                    lemma_grew_trans(*self, m1, *old(self));
                }
                let ghost mid = *self;
                self.push_new_term(cur, Term::BinOp { operator: op, lhs: a, rhs: b });
                proof {
                    lemma_advance_after_growth(*old(self), mid, *self, cur as int);
                }
            },
            Shape::Branches(c, t, e) => {
                let a = self.alloc_thunk(c, &env_cur);
                let ghost m1 = *self;
                let b = self.alloc_thunk(t, &env_cur);
                proof {
                    lemma_grew_trans(*self, m1, *old(self));
                }
                let ghost m2 = *self;
                let d = self.alloc_thunk(e, &env_cur);
                proof {
                    lemma_grew_trans(*self, m2, *old(self));
                }
                let ghost mid = *self;
                self.push_new_term(
                    cur,
                    Term::Condition { condition: a, then_result: b, else_result: d },
                );
                proof {
                    lemma_advance_after_growth(*old(self), mid, *self, cur as int);
                }
            },
            Shape::Guarded(p, r) => {
                let a = self.alloc_thunk(p, &env_cur);
                let ghost m1 = *self;
                let b = self.alloc_thunk(r, &env_cur);
                proof {
                    lemma_grew_trans(*self, m1, *old(self));
                }
                let ghost mid = *self;
                self.push_new_term(cur, Term::Assert { predicate: a, result: b });
                proof {
                    lemma_advance_after_growth(*old(self), mid, *self, cur as int);
                }
            },
            Shape::Call(f, arg) => {
                let a = self.alloc_thunk(f, &env_cur);
                let ghost m1 = *self;
                let b = self.alloc_thunk(arg, &env_cur);
                proof {
                    lemma_grew_trans(*self, m1, *old(self));
                }
                let ghost mid = *self;
                self.push_new_term(cur, Term::Apply { function: a, argument: b });
                proof {
                    lemma_advance_after_growth(*old(self), mid, *self, cur as int);
                }
            },
            Shape::Abstraction(param, body) => {
                self.push_new_term(cur, Term::Function { param, body, env: env_cur });
            },
            Shape::Bindings(names, origins, body, distinct) => {
                if !distinct {
                    // Two bindings under one name: a language-level error.
                    self.push_new_term(cur, Term::Error);
                } else {
                    // Allocate the binding thunks first, so the scope they all
                    // share can name them.
                    let placeholder = Env::empty();
                    let ids = self.alloc_batch(&origins, &placeholder);
                    let mut shared = dup_env(&env_cur);
                    let mut k: usize = 0;
                    while k < ids.len()
                        invariant
                            k <= ids@.len(),
                            ids@.len() == names@.len(),
                            forall|j: int| 0 <= j < ids@.len() ==> (#[trigger] ids@[j]) < self.thunks@.len(),
                            entries_wf(shared.lets@, self.thunks@.len() as int),
                            entries_wf(shared.withs@, self.thunks@.len() as int),
                            shared.withs@ == env_cur.withs@,
                            shared.lets@.len() == env_cur.lets@.len() + k,
                            forall|i: int|
                                0 <= i < env_cur.lets@.len() ==> #[trigger] shared.lets@[i]
                                    == env_cur.lets@[i],
                            forall|i: int|
                                0 <= i < k ==> #[trigger] shared.lets@[env_cur.lets@.len() + i] == (
                                names@[i],
                                ids@[i],
                                ),
                        decreases ids@.len() - k,
                    {
                        shared.lets.push((names[k].clone(), ids[k]));
                        k = k + 1;
                    }
                    // Give every binding thunk the mutually-visible scope.
                    let mut j: usize = 0;
                    while j < ids.len()
                        invariant
                            j <= ids@.len(),
                            self.wf(),
                            self.grew(*old(self)),
                            self.nodes@ == old(self).nodes@,
                            self.terms@ == old(self).terms@,
                            self.thunks@.len() == old(self).thunks@.len() + ids@.len(),
                            forall|i: int| 0 <= i < ids@.len() ==> (#[trigger] ids@[i]) >= old(self).thunks@.len(),
                            forall|i: int| 0 <= i < ids@.len() ==> (#[trigger] ids@[i]) < self.thunks@.len(),
                            forall|i: int|
                                0 <= i < ids@.len() ==> #[trigger] ids@[i] == old(self).thunks@.len()
                                    + i,
                            forall|i: int|
                                0 <= i < ids@.len() ==> #[trigger] self.thunks@[ids@[i] as int].origin
                                    == origins@[i],
                            forall|i: int|
                                0 <= i < j ==> {
                                    let th = #[trigger] self.thunks@[ids@[i] as int];
                                    th.env.lets@ == shared.lets@ && th.env.withs@ == shared.withs@
                                },
                            shared.wf(self.thunks@.len() as int),
                        decreases ids@.len() - j,
                    {
                        let ghost before = *self;
                        let e = dup_env(&shared);
                        self.set_env(ids[j], e);
                        proof {
                            assert forall|i: int| 0 <= i < old(self).thunks@.len() implies same_thunk(
                                #[trigger] self.thunks@[i],
                                old(self).thunks@[i],
                            ) by {
                                assert(i != ids@[j as int]);
                                assert(same_thunk(self.thunks@[i], before.thunks@[i]));
                            }
                            assert forall|i: int|
                                old(self).thunks@.len() <= i < self.thunks@.len() implies (
                            #[trigger] self.thunks@[i]).versions@.len() == 0 by {
                                if i == ids@[j as int] {
                                    assert(self.thunks@[i].versions@
                                        == before.thunks@[i].versions@);
                                } else {
                                    assert(same_thunk(self.thunks@[i], before.thunks@[i]));
                                }
                            }
                        }
                        j = j + 1;
                    }
                    let ghost m1 = *self;
                    let b = self.alloc_thunk(body, &shared);
                    proof {
                        lemma_grew_trans(*self, m1, *old(self));
                    }
                    let ghost mid = *self;
                    self.push_new_term(cur, Term::Wrapper(b));
                    proof {
                        lemma_advance_after_growth(*old(self), mid, *self, cur as int);
                        let o = *old(self);
                        let base = o.thunks@.len() as int;
                        let e = o.thunks@[cur as int].env;
                        let n = ids@.len() as int;
                        assert(shared.withs@ == e.withs@);
                        assert(shared.lets@.len() == e.lets@.len() + n);
                        assert forall|i: int| 0 <= i < e.lets@.len() implies #[trigger] shared.lets@[i]
                            == e.lets@[i] by {
                            assert(shared.lets@[i] == env_cur.lets@[i]);
                        }
                        assert forall|k: int| 0 <= k < n implies {
                            let th = #[trigger] self.thunks@[base + k];
                            th.origin == origins@[k] && th.env.lets@ == shared.lets@
                                && th.env.withs@ == shared.withs@
                        } by {
                            assert(ids@[k] == base + k);
                            assert(base + k != cur as int);
                            assert(same_thunk(mid.thunks@[base + k], m1.thunks@[base + k]));
                            assert(same_thunk(self.thunks@[base + k], mid.thunks@[base + k]));
                            assert(m1.thunks@[ids@[k] as int].origin == origins@[k]);
                            assert(m1.thunks@[ids@[k] as int].env.lets@ == shared.lets@);
                        }
                        assert(b as int == base + n);
                        assert(same_thunk(self.thunks@[b as int], mid.thunks@[b as int]));
                        assert(self.thunks@[base + n].origin == body);
                        assert(self.thunks@[base + n].env.lets@ == shared.lets@);
                        assert(self.thunks@[base + n].env.withs@ == shared.withs@);
                    }
                }
            },
            Shape::Injection(s, r) => {
                let a = self.alloc_thunk(s, &env_cur);
                let ghost mid = *self;
                self.push_new_term(cur, Term::With { attr_set: a, result: r, env: env_cur });
                proof {
                    lemma_advance_after_growth(*old(self), mid, *self, cur as int);
                }
            },
        }
    }
}

/// Whether `x` occurs in `v`.
#[verifier::loop_isolation(false)]
fn contains_id(v: &Vec<usize>, x: usize) -> (r: bool)
    ensures
        r == v@.contains(x),
{
    let mut k: usize = 0;
    while k < v.len()
        invariant
            k <= v@.len(),
            forall|j: int| 0 <= j < k ==> v@[j] != x,
        decreases v@.len() - k,
    {
        if v[k] == x {
            proof {
                assert(v@.contains(x)) by {
                    assert(v@[k as int] == x);
                }
            }
            return true;
        }
        k = k + 1;
    }
    false
}

impl Arena {
    /// The newest approximation of thunk `t`, reported when `t` is the thunk
    /// this call advanced; nothing otherwise.
    fn report(&self, t: usize, advanced: usize) -> (r: Option<usize>)
        requires
            self.wf(),
            t < self.thunks@.len(),
            advanced == t ==> self.thunks@[t as int].versions@.len() > 0,
        ensures
            advanced == t ==> r == self.top_of(t as int),
            advanced != t ==> r is None,
    {
        if advanced == t {
            let m = self.thunks[t].versions.len();
            Some(self.thunks[t].versions[m - 1])
        } else {
            None
        }
    }

    /// Advance evaluation of thunk `t` by exactly one reduction.
    ///
    /// If `t` is already at a weak-head-normal form, nothing at all happens:
    /// its newest approximation is returned without allocation, however many
    /// parents share the thunk, and however often `step` is repeated.
    /// Otherwise exactly one reduction is recorded, on `t` itself or on the
    /// one thunk reached by following the chain of children the pending rules
    /// need next, and the reduction is the one the rules prescribe
    /// ([`step_rel`]): version histories only ever grow, exactly one existing
    /// thunk gains exactly one version per call, at most one term is
    /// allocated, and every thunk created along the way starts with an empty
    /// history.  A chain of needed children that comes back to a thunk
    /// already on it is genuinely self-referential: that thunk is resolved to
    /// the error value.
    ///
    /// Returns `t`'s newest approximation — terminal or intermediate — when
    /// `t` itself is finished or advanced this call, and `None` while `t`
    /// stays blocked on a dependency; a terminal `Error` is reported like any
    /// other value, distinguishable from blocking.
    #[verifier::loop_isolation(false)]
    pub fn step(&mut self, t: usize) -> (r: Option<usize>)
        requires
            old(self).wf(),
            t < old(self).thunks@.len(),
        ensures
            final(self).wf(),
            final(self).evolves(*old(self)),
            final(self).unchanged(*old(self)) || (exists|c: int|
                final(self).advanced_one(*old(self), c) && step_rel(*old(self), *final(self), c)),
            !old(self).thunk_at_whnf(t as int) ==> (exists|c: int, path: Seq<int>|
                final(self).advanced_one(*old(self), c) && step_rel(*old(self), *final(self), c)
                    && needs_chain(*old(self), path, t as int, c)),
            old(self).thunk_at_whnf(t as int) ==> final(self).unchanged(*old(self)),
            forall|i: int|
                old(self).thunks@.len() <= i < final(self).thunks@.len()
                    ==> (#[trigger] final(self).thunks@[i]).versions@.len() == 0,
            r == step_result(*old(self), *final(self), t as int),
            old(self).thunk_at_value(t as int) ==> r == old(self).value_of(t as int)
                && r is Some,
    {
        proof {
            assert(self.thunks@[t as int].wf(
                self.nodes@.len() as int,
                self.thunks@.len() as int,
                self.terms@.len() as int,
            ));
        }
        let n0 = self.thunks[t].versions.len();
        if n0 > 0 {
            let top0 = self.thunks[t].versions[n0 - 1];
            if self.terms[top0].is_whnf() {
                proof {
                    lemma_unchanged_refl(*self);
                    lemma_unchanged_evolves(*self, *old(self));
                }
                return Some(top0);
            }
        }
        let mut cur: usize = t;
        let mut visited: Vec<usize> = Vec::new();
        let ghost mut path: Seq<int> = seq![t as int];
        let mut fuel: usize = self.thunks.len();
        proof {
            vstd::set_lib::lemma_int_range(0, self.thunks@.len() as int);
            assert(unvisited(visited@, self.thunks@.len() as int)
                =~= vstd::set_lib::set_int_range(0, self.thunks@.len() as int));
        }
        loop
            invariant
                self.wf(),
                *self == *old(self),
                cur < self.thunks@.len(),
                !self.thunk_at_whnf(cur as int),
                !self.thunk_at_whnf(t as int),
                path.len() == visited@.len() + 1,
                path.first() == t as int,
                path.last() == cur as int,
                forall|i: int| 0 <= i < visited@.len() ==> path[i] == visited@[i],
                forall|i: int|
                    0 <= i < path.len() - 1 ==> self.needs(#[trigger] path[i], path[i + 1]),
                forall|i: int|
                    0 <= i < visited@.len() ==> {
                        let v = #[trigger] visited@[i];
                        &&& v < self.thunks@.len()
                        &&& self.thunks@[v as int].versions@.len() > 0
                        &&& self.blocked(v as int)
                    },
                !visited@.contains(cur),
                unvisited(visited@, self.thunks@.len() as int).finite(),
                unvisited(visited@, self.thunks@.len() as int).len() == fuel,
            decreases fuel,
        {
            if self.thunks[cur].versions.len() == 0 {
                self.classify(cur);
                proof {
                    lemma_advanced_evolves(*self, *old(self), cur as int);
                    assert(self.advanced_one(*old(self), cur as int) && step_rel(
                        *old(self),
                        *self,
                        cur as int,
                    ));
                    assert(needs_chain(*old(self), path, t as int, cur as int));
                    if cur != t {
                        assert(same_thunk(self.thunks@[t as int], old(self).thunks@[t as int]));
                    }
                }
                return self.report(t, cur);
            }
            let d = self.decide(cur);
            match d {
                Decision::Put(tm) => {
                    self.push_new_term(cur, tm);
                    proof {
                        lemma_advanced_evolves(*self, *old(self), cur as int);
                        assert(self.advanced_one(*old(self), cur as int) && step_rel(
                            *old(self),
                            *self,
                            cur as int,
                        ));
                        assert(needs_chain(*old(self), path, t as int, cur as int));
                        if cur != t {
                            assert(same_thunk(self.thunks@[t as int], old(self).thunks@[t as int]));
                        }
                    }
                    return self.report(t, cur);
                },
                Decision::Share(tid) => {
                    self.push_shared(cur, tid);
                    proof {
                        lemma_advanced_evolves(*self, *old(self), cur as int);
                        assert(self.advanced_one(*old(self), cur as int) && step_rel(
                            *old(self),
                            *self,
                            cur as int,
                        ));
                        assert(needs_chain(*old(self), path, t as int, cur as int));
                        if cur != t {
                            assert(same_thunk(self.thunks@[t as int], old(self).thunks@[t as int]));
                        }
                    }
                    return self.report(t, cur);
                },
                Decision::Beta { param, body, env, argument } => {
                    let ghost pre = *self;
                    let ghost param0 = param;
                    let ghost env0 = env;
                    let mut scope = env;
                    scope.lets.push((param, argument));
                    let b = self.alloc_thunk(body, &scope);
                    let ghost mid = *self;
                    proof {
                        assert(!mid.thunk_at_whnf(cur as int)) by {
                            assert(same_thunk(mid.thunks@[cur as int], pre.thunks@[cur as int]));
                        }
                    }
                    self.push_new_term(cur, Term::Wrapper(b));
                    proof {
                        lemma_advance_after_growth(pre, mid, *self, cur as int);
                        lemma_advanced_evolves(*self, *old(self), cur as int);
                        assert(same_thunk(self.thunks@[b as int], mid.thunks@[b as int]));
                        assert(self.thunks@[b as int].env.lets@ == env0.lets@.push(
                            (param0, argument),
                        ));
                        assert(self.thunks@[b as int].env.withs@ == env0.withs@);
                        assert(self.advanced_one(*old(self), cur as int) && step_rel(
                            *old(self),
                            *self,
                            cur as int,
                        ));
                        assert(needs_chain(*old(self), path, t as int, cur as int));
                        if cur != t {
                            assert(same_thunk(self.thunks@[t as int], old(self).thunks@[t as int]));
                        }
                    }
                    return self.report(t, cur);
                },
                Decision::Enter { entries, result, env } => {
                    let ghost pre = *self;
                    let ghost env0 = env;
                    let mut scope = env;
                    let mut k: usize = 0;
                    while k < entries.len()
                        invariant
                            k <= entries@.len(),
                            entries_wf(scope.withs@, self.thunks@.len() as int),
                            entries_wf(scope.lets@, self.thunks@.len() as int),
                            scope.lets@ == env0.lets@,
                            scope.withs@ == env0.withs@ + entries@.subrange(0, k as int),
                        decreases entries@.len() - k,
                    {
                        scope.withs.push((entries[k].0.clone(), entries[k].1));
                        proof {
                            assert(entries@.subrange(0, k + 1) =~= entries@.subrange(
                                0,
                                k as int,
                            ).push(entries@[k as int]));
                            assert(env0.withs@ + entries@.subrange(0, k + 1) =~= (env0.withs@
                                + entries@.subrange(0, k as int)).push(entries@[k as int]));
                        }
                        k = k + 1;
                    }
                    proof {
                        assert(entries@.subrange(0, entries@.len() as int) =~= entries@);
                    }
                    let b = self.alloc_thunk(result, &scope);
                    let ghost mid = *self;
                    proof {
                        assert(!mid.thunk_at_whnf(cur as int)) by {
                            assert(same_thunk(mid.thunks@[cur as int], pre.thunks@[cur as int]));
                        }
                    }
                    self.push_new_term(cur, Term::Wrapper(b));
                    proof {
                        lemma_advance_after_growth(pre, mid, *self, cur as int);
                        lemma_advanced_evolves(*self, *old(self), cur as int);
                        assert(same_thunk(self.thunks@[b as int], mid.thunks@[b as int]));
                        assert(self.thunks@[b as int].env.lets@ == env0.lets@);
                        assert(self.thunks@[b as int].env.withs@ == env0.withs@ + entries@);
                        assert(self.advanced_one(*old(self), cur as int) && step_rel(
                            *old(self),
                            *self,
                            cur as int,
                        ));
                        assert(needs_chain(*old(self), path, t as int, cur as int));
                        if cur != t {
                            assert(same_thunk(self.thunks@[t as int], old(self).thunks@[t as int]));
                        }
                    }
                    return self.report(t, cur);
                },
                Decision::Goto(c) => {
                    if c == cur || contains_id(&visited, c) {
                        // The chain of needed children came back to a thunk
                        // already on it while nothing changed: forcing that
                        // thunk is genuinely self-referential, a user error
                        // surfaced as the error value.
                        proof {
                            assert(exists|i: int| 0 <= i < path.len() && path[i] == c as int) by {
                                if c == cur {
                                    assert(path[path.len() - 1] == c as int);
                                } else {
                                    let j = choose|j: int|
                                        0 <= j < visited@.len() && visited@[j] == c;
                                    assert(path[j] == c as int);
                                }
                            }
                        }
                        let ghost i = choose|i: int| 0 <= i < path.len() && path[i] == c as int;
                        let ghost cyc = path.subrange(i, path.len() as int).push(c as int);
                        proof {
                            if c == cur {
                                assert(self.blocked(c as int));
                                assert(self.thunks@[c as int].versions@.len() > 0);
                            } else {
                                let j = choose|j: int|
                                    0 <= j < visited@.len() && visited@[j] == c;
                                assert(self.blocked(visited@[j] as int));
                                assert(self.thunks@[visited@[j] as int].versions@.len() > 0);
                            }
                            assert(cyc.len() >= 2);
                            assert(cyc.first() == c as int);
                            assert(cyc.last() == c as int);
                            assert forall|j: int| 0 <= j < cyc.len() - 1 implies self.needs(
                                #[trigger] cyc[j],
                                cyc[j + 1],
                            ) by {
                                assert(cyc[j] == path[i + j]);
                                if j < cyc.len() - 2 {
                                    assert(cyc[j + 1] == path[i + j + 1]);
                                } else {
                                    assert(path[i + j] == path[path.len() - 1]);
                                    assert(self.needs(cur as int, c as int));
                                }
                            }
                            assert(needs_chain(*self, cyc, c as int, c as int));
                        }
                        self.push_new_term(c, Term::Error);
                        proof {
                            lemma_advanced_evolves(*self, *old(self), c as int);
                            assert(reduced(*old(self), *self, c as int)) by {
                                assert(old(self).blocked(c as int));
                                assert(cyc.len() >= 2 && needs_chain(
                                    *old(self),
                                    cyc,
                                    c as int,
                                    c as int,
                                ));
                            }
                            assert(self.advanced_one(*old(self), c as int) && step_rel(
                                *old(self),
                                *self,
                                c as int,
                            ));
                            assert(needs_chain(*old(self), path.push(c as int), t as int, c as int))
                                by {
                                assert(path.push(c as int).first() == path[0]);
                                assert forall|j: int|
                                    0 <= j < path.push(c as int).len() - 1 implies old(
                                    self,
                                ).needs(#[trigger] path.push(c as int)[j], path.push(c as int)[j + 1]) by {
                                    if j < path.len() - 1 {
                                        assert(path.push(c as int)[j] == path[j]);
                                        assert(path.push(c as int)[j + 1] == path[j + 1]);
                                    } else {
                                        assert(path.push(c as int)[j] == path[path.len() - 1]);
                                        assert(old(self).needs(cur as int, c as int));
                                    }
                                }
                            }
                            if c != t {
                                assert(same_thunk(
                                    self.thunks@[t as int],
                                    old(self).thunks@[t as int],
                                ));
                            }
                        }
                        return self.report(t, c);
                    }
                    proof {
                        assert(unvisited(visited@, self.thunks@.len() as int).contains(cur as int));
                        if fuel == 0 {
                            // a descent without repetition cannot outrun the store
                            unvisited(visited@, self.thunks@.len() as int).lemma_len0_is_empty();
                            assert(false);
                        }
                        vstd::set::axiom_set_remove_len(
                            unvisited(visited@, self.thunks@.len() as int),
                            cur as int,
                        );
                        assert(unvisited(visited@.push(cur), self.thunks@.len() as int)
                            =~= unvisited(visited@, self.thunks@.len() as int).remove(
                            cur as int,
                        )) by {
                            assert forall|v: int|
                                unvisited(visited@.push(cur), self.thunks@.len() as int).contains(v)
                                    == unvisited(visited@, self.thunks@.len() as int).remove(
                                    cur as int,
                                ).contains(v) by {
                                lemma_push_contains(visited@, cur, v as usize);
                            }
                        }
                        lemma_push_contains(visited@, cur, c);
                        path = path.push(c as int);
                    }
                    visited.push(cur);
                    fuel = fuel - 1;
                    cur = c;
                },
            }
        }
    }
}

/// Evolution is transitive: however many reductions are recorded, the syntax
/// stays fixed, terms and every version history only grow, finished thunks
/// stay untouched, and thunks created since start unevaluated.  With
/// [`Arena::step`]'s contract this extends its per-call guarantees to any
/// sequence of calls: `versions` lengths are non-decreasing across the whole
/// session.
pub proof fn lemma_evolves_trans(f: Arena, m: Arena, o: Arena)
    requires
        o.wf(),
        m.evolves(o),
        f.evolves(m),
    ensures
        f.evolves(o),
{
    lemma_prefix_trans(o.terms@, m.terms@, f.terms@);
    assert forall|i: int| 0 <= i < o.thunks@.len() implies {
        &&& (#[trigger] f.thunks@[i]).origin == o.thunks@[i].origin
        &&& same_env(f.thunks@[i].env, o.thunks@[i].env)
        &&& o.thunks@[i].versions@.is_prefix_of(f.thunks@[i].versions@)
    } by {
        lemma_prefix_trans(
            o.thunks@[i].versions@,
            m.thunks@[i].versions@,
            f.thunks@[i].versions@,
        );
    }
    assert forall|i: int| 0 <= i < o.thunks@.len() && o.thunk_at_whnf(i) implies same_thunk(
        #[trigger] f.thunks@[i],
        o.thunks@[i],
    ) by {
        assert(same_thunk(m.thunks@[i], o.thunks@[i]));
        assert(m.thunk_at_whnf(i)) by {
            assert(o.thunks@[i].wf(
                o.nodes@.len() as int,
                o.thunks@.len() as int,
                o.terms@.len() as int,
            ));
            lemma_prefix_index(o.terms@, m.terms@, o.thunks@[i].versions@.last() as int);
        }
        assert(same_thunk(f.thunks@[i], m.thunks@[i]));
    }
}

/// Memoization is permanent: once a session records a terminal value for a
/// thunk, every later state of the session reports the identical cached value,
/// without the thunk's history having grown.
pub proof fn lemma_value_is_permanent(f: Arena, o: Arena, t: int)
    requires
        o.wf(),
        f.evolves(o),
        0 <= t < o.thunks@.len(),
        o.thunk_at_value(t),
    ensures
        f.thunk_at_value(t),
        f.value_of(t) == o.value_of(t),
        f.thunks@[t].versions@ == o.thunks@[t].versions@,
{
    assert(o.thunk_at_whnf(t));
    assert(same_thunk(f.thunks@[t], o.thunks@[t]));
    let v = o.thunks@[t].versions@.last() as int;
    assert(o.thunks@[t].wf(o.nodes@.len() as int, o.thunks@.len() as int, o.terms@.len() as int));
    lemma_prefix_index(o.terms@, f.terms@, v);
}

/// A prefix agrees with its extension at every index it covers.
proof fn lemma_prefix_index<A>(a: Seq<A>, b: Seq<A>, i: int)
    requires
        a.is_prefix_of(b),
        0 <= i < a.len(),
    ensures
        a[i] == b[i],
{
    assert(a[i] == b.subrange(0, a.len() as int)[i]);
}

/// A sequence is a prefix of whatever extends an extension of it.
proof fn lemma_prefix_trans<A>(a: Seq<A>, b: Seq<A>, c: Seq<A>)
    requires
        a.is_prefix_of(b),
        b.is_prefix_of(c),
    ensures
        a.is_prefix_of(c),
{
    assert(a =~= c.subrange(0, a.len() as int)) by {
        assert forall|i: int| 0 <= i < a.len() implies a[i] == c[i] by {
            assert(a[i] == b.subrange(0, a.len() as int)[i]);
            assert(b[i] == c.subrange(0, b.len() as int)[i]);
        }
    }
}

/// Growth of a session is transitive.
proof fn lemma_grew_trans(f: Arena, m: Arena, o: Arena)
    requires
        m.grew(o),
        f.grew(m),
    ensures
        f.grew(o),
{
    assert forall|i: int| 0 <= i < o.thunks@.len() implies same_thunk(
        #[trigger] f.thunks@[i],
        o.thunks@[i],
    ) by {
        assert(same_thunk(f.thunks@[i], m.thunks@[i]));
        assert(same_thunk(m.thunks@[i], o.thunks@[i]));
    }
    assert forall|i: int| o.thunks@.len() <= i < f.thunks@.len() implies (#[trigger] f.thunks@[i]).versions@.len()
        == 0 by {
        if i < m.thunks@.len() {
            assert(m.thunks@[i].versions@.len() == 0);
            assert(same_thunk(f.thunks@[i], m.thunks@[i]));
        }
    }
}

/// Appending one in-bounds version to one non-finished thunk preserves
/// well-formedness and records exactly one reduction.
proof fn lemma_push_version_wf(o: Arena, f: Arena, cur: int, tid: int)
    requires
        o.wf(),
        0 <= cur < o.thunks@.len(),
        !o.thunk_at_whnf(cur),
        f.nodes@ == o.nodes@,
        o.terms@.len() <= f.terms@.len() <= o.terms@.len() + 1,
        forall|i: int| 0 <= i < o.terms@.len() ==> f.terms@[i] == o.terms@[i],
        forall|i: int|
            o.terms@.len() <= i < f.terms@.len() ==> (#[trigger] f.terms@[i]).wf(
                o.nodes@.len() as int,
                o.thunks@.len() as int,
            ),
        f.thunks@ == o.thunks@.update(
            cur,
            Thunk {
                origin: o.thunks@[cur].origin,
                env: o.thunks@[cur].env,
                versions: f.thunks@[cur].versions,
            },
        ),
        0 <= tid < f.terms@.len(),
        f.thunks@[cur].versions@ == o.thunks@[cur].versions@.push(tid as usize),
    ensures
        f.wf(),
        f.advanced_one(o, cur),
{
    assert forall|i: int| 0 <= i < f.thunks@.len() implies (#[trigger] f.thunks@[i]).wf(
        f.nodes@.len() as int,
        f.thunks@.len() as int,
        f.terms@.len() as int,
    ) by {
        assert(o.thunks@[i].wf(o.nodes@.len() as int, o.thunks@.len() as int, o.terms@.len() as int));
        if i == cur {
            assert(ids_wf(f.thunks@[cur].versions@, f.terms@.len() as int)) by {
                assert forall|k: int| 0 <= k < f.thunks@[cur].versions@.len() implies (
                #[trigger] f.thunks@[cur].versions@[k]) < f.terms@.len() by {
                    if k < o.thunks@[cur].versions@.len() {
                        assert(f.thunks@[cur].versions@[k] == o.thunks@[cur].versions@[k]);
                    }
                }
            }
        }
    }
    assert forall|i: int| 0 <= i < f.terms@.len() implies (#[trigger] f.terms@[i]).wf(
        f.nodes@.len() as int,
        f.thunks@.len() as int,
    ) by {
        if i < o.terms@.len() {
            assert(o.terms@[i].wf(o.nodes@.len() as int, o.thunks@.len() as int));
            assert(f.terms@[i] == o.terms@[i]);
        }
    }
    assert(o.terms@.is_prefix_of(f.terms@)) by {
        assert(o.terms@ =~= f.terms@.subrange(0, o.terms@.len() as int));
    }
    assert(o.thunks@[cur].versions@.is_prefix_of(f.thunks@[cur].versions@)) by {
        assert(o.thunks@[cur].versions@ =~= f.thunks@[cur].versions@.subrange(
            0,
            o.thunks@[cur].versions@.len() as int,
        ));
    }
    assert forall|i: int| 0 <= i < o.thunks@.len() && i != cur implies same_thunk(
        #[trigger] f.thunks@[i],
        o.thunks@[i],
    ) by {
        assert(f.thunks@[i] == o.thunks@[i]);
    }
}

/// A term well-formed under small bounds is well-formed under larger ones.
proof fn lemma_term_wf_mono(t: Term, n1: int, n2: int, t1: int, t2: int)
    requires
        t.wf(n1, t1),
        n1 <= n2,
        t1 <= t2,
    ensures
        t.wf(n2, t2),
{
}

/// A thunk equal in state to one well-formed under small bounds is well-formed
/// under larger ones.
proof fn lemma_thunk_wf_mono(a: Thunk, b: Thunk, n1: int, t1: int, t2: int, m1: int)
    requires
        a.wf(n1, t1, m1),
        same_thunk(a, b),
        t1 <= t2,
    ensures
        b.wf(n1, t2, m1),
{
    assert(b.origin == a.origin);
    assert(b.env.wf(t2));
    assert(ids_wf(b.versions@, m1));
}

/// Laziness of weak-head-normal forms: a thunk that has reached one — a list,
/// an attribute set, a function or a terminal value — needs no child, so no
/// descent ever passes through it, and by [`Arena::step`]'s contract it is
/// never touched again.  Together with [`classified`], which creates every
/// element and field thunk unevaluated, constructing a list or attribute set
/// evaluates none of its children: only stepping a child itself can.
pub proof fn lemma_whnf_needs_nothing(o: Arena, c: int, b: int)
    requires
        o.thunk_at_whnf(c),
    ensures
        !o.needs(c, b),
{
}

/// Short-circuit: a boolean operator whose left operand settled on the
/// deciding value — `false` for conjunction, `true` for disjunction, `false`
/// for implication — needs nothing more.  The right operand is not the needed
/// child of any descent, so its history stays empty unless it is stepped
/// directly, and the operator fires from the left alone.
pub proof fn lemma_short_circuit_needs_no_rhs(o: Arena, c: int)
    requires
        match o.top_term(c) {
            Term::BinOp { operator, lhs, rhs } => o.thunk_at_whnf(lhs as int) && (match operator {
                BinOpKind::And => o.top_term(lhs as int) == Term::Boolean(false),
                BinOpKind::Or => o.top_term(lhs as int) == Term::Boolean(true),
                BinOpKind::Implication => o.top_term(lhs as int) == Term::Boolean(false),
                _ => false,
            }),
            _ => false,
        },
    ensures
        !o.blocked(c),
        forall|b: int| !o.needs(c, b),
        o.fired_term(c) == (match o.top_term(c) {
            Term::BinOp { operator, lhs, rhs } => match operator {
                BinOpKind::And => Term::Boolean(false),
                _ => Term::Boolean(true),
            },
            _ => Term::Error,
        }),
{
}

} // verus!