//! Terms: the states of knowledge about an expression's value.
//!
//! A term is immutable once allocated; evaluation progress is represented by
//! allocating a new term and appending it to a thunk's version history, never by
//! mutating a term in place.  Terms fall into three families: terminal values,
//! weak-head-normal forms (reduced at the top, children may be unevaluated), and
//! redexes (pending computations).

use vstd::prelude::*;

use crate::syntax::{entries_wf, Anchor, BinOpKind};

verus! {

/// The scope a thunk resolves free identifiers in.
///
/// `lets` holds lexical bindings (lambda parameters and `let` bindings),
/// innermost last; `withs` holds names injected by `with` expressions, innermost
/// last.  Every lexical binding shadows every `with`-injected one.
#[derive(Debug)]
pub struct Env {
    pub lets: Vec<(String, usize)>,
    pub withs: Vec<(String, usize)>,
}

/// The rightmost entry of `es` whose name is `n`, if any.
pub open spec fn lookup_in(es: Seq<(String, usize)>, n: Seq<char>) -> Option<usize>
    decreases es.len(),
{
    if es.len() == 0 {
        None
    } else if es.last().0@ == n {
        Some(es.last().1)
    } else {
        lookup_in(es.drop_last(), n)
    }
}

/// No two entries of `es` share a name.
pub open spec fn distinct_names(es: Seq<(String, usize)>) -> bool {
    forall|i: int, j: int| 0 <= i < j < es.len() ==> (#[trigger] es[i]).0@ != (#[trigger] es[j]).0@
}

impl Env {
    /// The empty scope.
    pub fn empty() -> (r: Env)
        ensures
            r.lets@ =~= Seq::<(String, usize)>::empty(),
            r.withs@ =~= Seq::<(String, usize)>::empty(),
    {
        Env { lets: Vec::new(), withs: Vec::new() }
    }

    /// Every thunk this scope names lies below `bound`.
    pub open spec fn wf(self, bound: int) -> bool {
        entries_wf(self.lets@, bound) && entries_wf(self.withs@, bound)
    }

    /// What a free identifier resolves to: the nearest lexical binding, and
    /// failing that the nearest `with`-injected one.
    pub open spec fn lookup_spec(self, n: Seq<char>) -> Option<usize> {
        match lookup_in(self.lets@, n) {
            Some(t) => Some(t),
            None => lookup_in(self.withs@, n),
        }
    }

    /// Resolve a free identifier in this scope.
    pub fn lookup(&self, name: &String) -> (r: Option<usize>)
        ensures
            r == self.lookup_spec(name@),
    {
        match lookup_entries(&self.lets, name) {
            Some(t) => Some(t),
            None => lookup_entries(&self.withs, name),
        }
    }
}

/// Two scopes hold the same bindings.
pub open spec fn same_env(a: Env, b: Env) -> bool {
    a.lets@ == b.lets@ && a.withs@ == b.withs@
}

/// Resolve `name` to the rightmost entry of `es` carrying it.
pub fn lookup_entries(es: &Vec<(String, usize)>, name: &String) -> (r: Option<usize>)
    ensures
        r == lookup_in(es@, name@),
{
    let mut k: usize = es.len();
    proof {
        assert(es@.subrange(0, es@.len() as int) =~= es@);
    }
    while k > 0
        invariant
            k <= es@.len(),
            lookup_in(es@, name@) == lookup_in(es@.subrange(0, k as int), name@),
        decreases k,
    {
        k = k - 1;
        proof {
            assert(es@.subrange(0, k + 1).last() == es@[k as int]);
            assert(es@.subrange(0, k + 1).drop_last() =~= es@.subrange(0, k as int));
        }
        if es[k].0 == *name {
            return Some(es[k].1);
        }
    }
    proof {
        assert(es@.subrange(0, 0).len() == 0);
    }
    None
}

/// Copy a binding list.
pub fn dup_entries(es: &Vec<(String, usize)>) -> (r: Vec<(String, usize)>)
    ensures
        r@ == es@,
{
    let mut out: Vec<(String, usize)> = Vec::new();
    let mut k: usize = 0;
    while k < es.len()
        invariant
            k <= es@.len(),
            out@ =~= es@.subrange(0, k as int),
        decreases es@.len() - k,
    {
        out.push((es[k].0.clone(), es[k].1));
        k = k + 1;
    }
    proof {
        assert(es@.subrange(0, es@.len() as int) =~= es@);
    }
    out
}

/// Copy a scope.
pub fn dup_env(e: &Env) -> (r: Env)
    ensures
        same_env(r, *e),
{
    Env { lets: dup_entries(&e.lets), withs: dup_entries(&e.withs) }
}

/// Check that no two entries share a name.
pub fn check_distinct_names(es: &Vec<(String, usize)>) -> (r: bool)
    ensures
        r == distinct_names(es@),
{
    let mut i: usize = 0;
    while i < es.len()
        invariant
            i <= es@.len(),
            forall|p: int, q: int| 0 <= p < q < es@.len() && p < i ==> (#[trigger] es@[p]).0@ != (#[trigger] es@[q]).0@,
        decreases es@.len() - i,
    {
        let mut j: usize = i + 1;
        while j < es.len()
            invariant
                i < j,
                j <= es@.len(),
                i < es@.len(),
                forall|q: int| i < q < j ==> es@[i as int].0@ != (#[trigger] es@[q]).0@,
            decreases es@.len() - j,
        {
            if es[i].0 == es[j].0 {
                return false;
            }
            j = j + 1;
        }
        i = i + 1;
    }
    true
}

/// A name resolved in a well-formed binding list points below the bound.
pub proof fn lemma_lookup_in_bound(es: Seq<(String, usize)>, n: Seq<char>, b: int)
    requires
        entries_wf(es, b),
    ensures
        match lookup_in(es, n) {
            Some(v) => v < b,
            None => true,
        },
    decreases es.len(),
{
    if es.len() > 0 {
        if es.last().0@ == n {
            assert(es[es.len() - 1].1 < b);
        } else {
            assert(entries_wf(es.drop_last(), b)) by {
                assert forall|k: int| 0 <= k < es.drop_last().len() implies (#[trigger] es.drop_last()[k]).1
                    < b by {
                    assert(es.drop_last()[k] == es[k]);
                }
            }
            lemma_lookup_in_bound(es.drop_last(), n, b);
        }
    }
}

/// A name resolved in a well-formed scope points below the bound.
pub proof fn lemma_lookup_bound(e: Env, n: Seq<char>, b: int)
    requires
        e.wf(b),
    ensures
        match e.lookup_spec(n) {
            Some(v) => v < b,
            None => true,
        },
{
    lemma_lookup_in_bound(e.lets@, n, b);
    lemma_lookup_in_bound(e.withs@, n, b);
}

/// One state of knowledge about an expression's value.
#[derive(Debug)]
pub enum Term {
    // Terminal values: once a thunk reaches one of these it is permanently done.
    Error,
    Null,
    Boolean(bool),
    Integer(i64),
    SimpleString(String),
    SimplePath(Anchor, String),
    // Weak-head-normal forms: the top shape is known, children may be
    // unevaluated thunks.
    List(Vec<usize>),
    AttrSet(Vec<(String, usize)>),
    /// A closure in waiting: parameter, body node, captured scope.
    Function { param: String, body: usize, env: Env },
    // Redexes: pending computations over child thunks.
    Apply { function: usize, argument: usize },
    Assert { predicate: usize, result: usize },
    BinOp { operator: BinOpKind, lhs: usize, rhs: usize },
    Condition { condition: usize, then_result: usize, else_result: usize },
    /// Scope injection in waiting: the attribute set thunk, the body node, and
    /// the scope the `with` expression itself was classified in.
    With { attr_set: usize, result: usize, env: Env },
    /// Semantically transparent indirection to another thunk.
    Wrapper(usize),
}

impl Term {
    /// Terminal values: fully reduced, permanently done.
    pub open spec fn is_value_spec(self) -> bool {
        match self {
            Term::Error => true,
            Term::Null => true,
            Term::Boolean(_) => true,
            Term::Integer(_) => true,
            Term::SimpleString(_) => true,
            Term::SimplePath(_, _) => true,
            _ => false,
        }
    }

    /// Weak-head-normal forms: no further top-level reduction exists.  Every
    /// terminal value is one; so are lists, attribute sets and functions.
    pub open spec fn is_whnf_spec(self) -> bool {
        match self {
            Term::List(_) => true,
            Term::AttrSet(_) => true,
            Term::Function { .. } => true,
            _ => self.is_value_spec(),
        }
    }

    /// Shallow classification: is this term a terminal value?
    pub fn is_value(&self) -> (r: bool)
        ensures
            r == self.is_value_spec(),
    {
        match self {
            Term::Error => true,
            Term::Null => true,
            Term::Boolean(_) => true,
            Term::Integer(_) => true,
            Term::SimpleString(_) => true,
            Term::SimplePath(_, _) => true,
            _ => false,
        }
    }

    /// The term itself if it is a terminal value, else `None`.
    pub fn as_value(&self) -> (r: Option<&Term>)
        ensures
            self.is_value_spec() ==> r == Some(self),
            !self.is_value_spec() ==> r is None,
    {
        if self.is_value() {
            Some(self)
        } else {
            None
        }
    }

    /// Shallow classification: is this term a weak-head-normal form?
    pub fn is_whnf(&self) -> (r: bool)
        ensures
            r == self.is_whnf_spec(),
    {
        match self {
            Term::List(_) => true,
            Term::AttrSet(_) => true,
            Term::Function { .. } => true,
            _ => self.is_value(),
        }
    }

    /// Every thunk index in the term lies below `tbound`, and every syntax node
    /// it keeps lies below `nbound`.
    pub open spec fn wf(self, nbound: int, tbound: int) -> bool {
        match self {
            Term::List(es) => crate::syntax::ids_wf(es@, tbound),
            Term::AttrSet(es) => entries_wf(es@, tbound),
            Term::Function { param, body, env } => body < nbound && env.wf(tbound),
            Term::Apply { function, argument } => function < tbound && argument < tbound,
            Term::Assert { predicate, result } => predicate < tbound && result < tbound,
            Term::BinOp { operator, lhs, rhs } => lhs < tbound && rhs < tbound,
            Term::Condition { condition, then_result, else_result } =>
                condition < tbound && then_result < tbound && else_result < tbound,
            Term::With { attr_set, result, env } => attr_set < tbound && result < nbound && env.wf(tbound),
            Term::Wrapper(t) => t < tbound,
            _ => true,
        }
    }
}

/// Whether two terminal values are equal: `None` when the two shapes do not
/// match (comparison of mismatched types is a type error), or when either side
/// is an error or not a terminal value at all.
pub open spec fn values_equal(l: Term, r: Term) -> Option<bool> {
    match (l, r) {
        (Term::Null, Term::Null) => Some(true),
        (Term::Boolean(a), Term::Boolean(b)) => Some(a == b),
        (Term::Integer(a), Term::Integer(b)) => Some(a == b),
        (Term::SimpleString(a), Term::SimpleString(b)) => Some(a@ == b@),
        (Term::SimplePath(aa, at), Term::SimplePath(ba, bt)) => Some(aa == ba && at@ == bt@),
        _ => None,
    }
}

/// The value of a strict (non-short-circuiting) binary operator over two
/// operands already in weak-head-normal form.  Arithmetic is defined over
/// integers; overflow and division by zero are language-level errors.
/// Comparison orders integers.  Equality compares terminal values of matching
/// shape.  An operand of any other shape — an error, a mismatched type, or a
/// compound form where a scalar is required — makes the result `Error`.
/// Short-circuiting operators never reach this function.
pub open spec fn strict_binop_value(op: BinOpKind, l: Term, r: Term) -> Term {
    match op {
        BinOpKind::Add => match (l, r) {
            (Term::Integer(a), Term::Integer(b)) => match a.checked_add(b) {
                Some(v) => Term::Integer(v),
                None => Term::Error,
            },
            _ => Term::Error,
        },
        BinOpKind::Sub => match (l, r) {
            (Term::Integer(a), Term::Integer(b)) => match a.checked_sub(b) {
                Some(v) => Term::Integer(v),
                None => Term::Error,
            },
            _ => Term::Error,
        },
        BinOpKind::Mul => match (l, r) {
            (Term::Integer(a), Term::Integer(b)) => match a.checked_mul(b) {
                Some(v) => Term::Integer(v),
                None => Term::Error,
            },
            _ => Term::Error,
        },
        BinOpKind::Div => match (l, r) {
            (Term::Integer(a), Term::Integer(b)) => match a.checked_div(b) {
                Some(v) => Term::Integer(v),
                None => Term::Error,
            },
            _ => Term::Error,
        },
        BinOpKind::Less => match (l, r) {
            (Term::Integer(a), Term::Integer(b)) => Term::Boolean(a < b),
            _ => Term::Error,
        },
        BinOpKind::LessOrEq => match (l, r) {
            (Term::Integer(a), Term::Integer(b)) => Term::Boolean(a <= b),
            _ => Term::Error,
        },
        BinOpKind::More => match (l, r) {
            (Term::Integer(a), Term::Integer(b)) => Term::Boolean(a > b),
            _ => Term::Error,
        },
        BinOpKind::MoreOrEq => match (l, r) {
            (Term::Integer(a), Term::Integer(b)) => Term::Boolean(a >= b),
            _ => Term::Error,
        },
        BinOpKind::Equal => match values_equal(l, r) {
            Some(b) => Term::Boolean(b),
            None => Term::Error,
        },
        BinOpKind::NotEqual => match values_equal(l, r) {
            Some(b) => Term::Boolean(!b),
            None => Term::Error,
        },
        BinOpKind::And => Term::Error,
        BinOpKind::Or => Term::Error,
        BinOpKind::Implication => Term::Error,
    }
}

/// Compute whether two terminal values are equal, per [`values_equal`].
pub fn values_equal_exec(l: &Term, r: &Term) -> (res: Option<bool>)
    ensures
        res == values_equal(*l, *r),
{
    match (l, r) {
        (Term::Null, Term::Null) => Some(true),
        (Term::Boolean(a), Term::Boolean(b)) => Some(*a == *b),
        (Term::Integer(a), Term::Integer(b)) => Some(*a == *b),
        (Term::SimpleString(a), Term::SimpleString(b)) => Some(*a == *b),
        (Term::SimplePath(aa, at), Term::SimplePath(ba, bt)) => Some(*aa == *ba && *at == *bt),
        _ => None,
    }
}

/// Compute the value of a strict binary operator, per [`strict_binop_value`].
pub fn strict_binop(op: BinOpKind, l: &Term, r: &Term) -> (res: Term)
    ensures
        res == strict_binop_value(op, *l, *r),
        res is Integer || res is Boolean || res is Error,
{
    match op {
        BinOpKind::Add => match (l, r) {
            (Term::Integer(a), Term::Integer(b)) => match a.checked_add(*b) {
                Some(v) => Term::Integer(v),
                None => Term::Error,
            },
            _ => Term::Error,
        },
        BinOpKind::Sub => match (l, r) {
            (Term::Integer(a), Term::Integer(b)) => match a.checked_sub(*b) {
                Some(v) => Term::Integer(v),
                None => Term::Error,
            },
            _ => Term::Error,
        },
        BinOpKind::Mul => match (l, r) {
            (Term::Integer(a), Term::Integer(b)) => match a.checked_mul(*b) {
                Some(v) => Term::Integer(v),
                None => Term::Error,
            },
            _ => Term::Error,
        },
        BinOpKind::Div => match (l, r) {
            (Term::Integer(a), Term::Integer(b)) => match a.checked_div(*b) {
                Some(v) => Term::Integer(v),
                None => Term::Error,
            },
            _ => Term::Error,
        },
        BinOpKind::Less => match (l, r) {
            (Term::Integer(a), Term::Integer(b)) => Term::Boolean(*a < *b),
            _ => Term::Error,
        },
        BinOpKind::LessOrEq => match (l, r) {
            (Term::Integer(a), Term::Integer(b)) => Term::Boolean(*a <= *b),
            _ => Term::Error,
        },
        BinOpKind::More => match (l, r) {
            (Term::Integer(a), Term::Integer(b)) => Term::Boolean(*a > *b),
            _ => Term::Error,
        },
        BinOpKind::MoreOrEq => match (l, r) {
            (Term::Integer(a), Term::Integer(b)) => Term::Boolean(*a >= *b),
            _ => Term::Error,
        },
        BinOpKind::Equal => match values_equal_exec(l, r) {
            Some(b) => Term::Boolean(b),
            None => Term::Error,
        },
        BinOpKind::NotEqual => match values_equal_exec(l, r) {
            Some(b) => Term::Boolean(!b),
            None => Term::Error,
        },
        BinOpKind::And => Term::Error,
        BinOpKind::Or => Term::Error,
        BinOpKind::Implication => Term::Error,
    }
}

} // verus!
