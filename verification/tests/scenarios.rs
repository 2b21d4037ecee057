use nde_core::eval::Arena;
use nde_core::syntax::{BinOpKind, Node};
use nde_core::term::Term;

/// Step `root` until it yields a terminal value; panic if it never does.
fn drive(a: &mut Arena, root: usize) -> usize {
    let mut k = 0;
    while !a.is_value(root) {
        a.step(root);
        k += 1;
        if k > 10_000 {
            panic!("no terminal value after many steps");
        }
    }
    a.as_value(root).expect("just settled")
}

#[test]
fn addition_of_two_literals() {
    let mut a = Arena::new();
    let one = a.add_node(Node::IntLit(1));
    let two = a.add_node(Node::IntLit(2));
    let sum = a.add_node(Node::BinOp(BinOpKind::Add, one, two));
    let root = a.adopt(sum);
    let v = drive(&mut a, root);
    assert!(matches!(a.term(v), Term::Integer(3)));
}

#[test]
fn failed_assertion_is_an_error_value() {
    let mut a = Arena::new();
    let f = a.add_node(Node::BoolLit(false));
    let one = a.add_node(Node::IntLit(1));
    let n = a.add_node(Node::Assert(f, one));
    let root = a.adopt(n);
    let v = drive(&mut a, root);
    assert!(matches!(a.term(v), Term::Error));
}

#[test]
fn passing_assertion_yields_result() {
    let mut a = Arena::new();
    let t = a.add_node(Node::BoolLit(true));
    let one = a.add_node(Node::IntLit(1));
    let n = a.add_node(Node::Assert(t, one));
    let root = a.adopt(n);
    let v = drive(&mut a, root);
    assert!(matches!(a.term(v), Term::Integer(1)));
}

#[test]
fn conditional_takes_then_branch_and_never_steps_the_other() {
    let mut a = Arena::new();
    let l = a.add_node(Node::IntLit(1));
    let r = a.add_node(Node::IntLit(1));
    let cond = a.add_node(Node::BinOp(BinOpKind::Equal, l, r));
    let sa = a.add_node(Node::StrLit(String::from("a")));
    let sb = a.add_node(Node::StrLit(String::from("b")));
    let n = a.add_node(Node::IfElse(cond, sa, sb));
    let root = a.adopt(n);
    let v = drive(&mut a, root);
    match a.term(v) {
        Term::SimpleString(s) => assert_eq!(s, "a"),
        other => panic!("expected a string, got {:?}", other),
    }
    // The first approximation of the root names the alternative's thunk; its
    // history must still be empty.
    let first = a.version_at(root, 0);
    match *a.term(first) {
        Term::Condition { else_result, .. } => assert_eq!(a.versions_len(else_result), 0),
        ref other => panic!("expected a conditional, got {:?}", other),
    }
}

#[test]
fn let_bound_name_is_shared_and_stepped_once() {
    let mut a = Arena::new();
    let one = a.add_node(Node::IntLit(1));
    let xl = a.add_node(Node::Ident(String::from("x")));
    let xr = a.add_node(Node::Ident(String::from("x")));
    let body = a.add_node(Node::BinOp(BinOpKind::Add, xl, xr));
    let n = a.add_node(Node::LetIn(vec![(String::from("x"), one)], body));
    let root = a.adopt(n);
    let v = drive(&mut a, root);
    assert!(matches!(a.term(v), Term::Integer(2)));

    // Walk down to the two occurrences of `x`.
    let root_first = a.version_at(root, 0);
    let body_thunk = match *a.term(root_first) {
        Term::Wrapper(b) => b,
        ref other => panic!("expected a wrapper, got {:?}", other),
    };
    let (lhs, rhs) = match *a.term(a.version_at(body_thunk, 0)) {
        Term::BinOp { lhs, rhs, .. } => (lhs, rhs),
        ref other => panic!("expected an operator, got {:?}", other),
    };
    // Each occurrence resolved to the same binding thunk.
    let xa = match *a.term(a.version_at(lhs, 0)) {
        Term::Wrapper(x) => x,
        ref other => panic!("expected a wrapper, got {:?}", other),
    };
    let xb = match *a.term(a.version_at(rhs, 0)) {
        Term::Wrapper(x) => x,
        ref other => panic!("expected a wrapper, got {:?}", other),
    };
    assert_eq!(xa, xb);
    // The shared binding was reduced exactly once, and both occurrences adopted
    // the identical cached term, not a copy.
    assert_eq!(a.versions_len(xa), 1);
    let la = a.versions_len(lhs);
    let lb = a.versions_len(rhs);
    assert_eq!(a.version_at(lhs, la - 1), a.version_at(rhs, lb - 1));
}

#[test]
fn parenthesized_literal_takes_one_wrapper_reduction() {
    let mut a = Arena::new();
    let one = a.add_node(Node::IntLit(1));
    let paren = a.add_node(Node::Paren(one));
    let root = a.adopt(paren);
    let v = drive(&mut a, root);
    assert!(matches!(a.term(v), Term::Integer(1)));
    assert_eq!(a.versions_len(root), 2);
    assert!(matches!(a.term(a.version_at(root, 0)), Term::Wrapper(_)));
    assert!(matches!(a.term(a.version_at(root, 1)), Term::Integer(1)));
}

#[test]
fn step_on_a_value_changes_nothing() {
    let mut a = Arena::new();
    let one = a.add_node(Node::IntLit(1));
    let two = a.add_node(Node::IntLit(2));
    let sum = a.add_node(Node::BinOp(BinOpKind::Add, one, two));
    let root = a.adopt(sum);
    let v = drive(&mut a, root);
    let len = a.versions_len(root);
    let terms = a.num_terms();
    let thunks = a.num_thunks();
    for _ in 0..5 {
        let again = a.step(root);
        assert_eq!(again, Some(v));
        assert_eq!(a.versions_len(root), len);
        assert_eq!(a.num_terms(), terms);
        assert_eq!(a.num_thunks(), thunks);
    }
}

#[test]
fn version_histories_grow_monotonically_and_stabilize() {
    let mut a = Arena::new();
    let one = a.add_node(Node::IntLit(1));
    let two = a.add_node(Node::IntLit(2));
    let sum = a.add_node(Node::BinOp(BinOpKind::Add, one, two));
    let root = a.adopt(sum);
    let mut prev = a.versions_len(root);
    let mut settled_at: Option<usize> = None;
    for _ in 0..20 {
        a.step(root);
        let now = a.versions_len(root);
        assert!(now >= prev);
        if let Some(s) = settled_at {
            assert_eq!(now, s);
        }
        if a.is_value(root) && settled_at.is_none() {
            settled_at = Some(now);
        }
        prev = now;
    }
    assert!(settled_at.is_some());
}

#[test]
fn building_a_list_evaluates_no_element() {
    let mut a = Arena::new();
    let one = a.add_node(Node::IntLit(1));
    let two = a.add_node(Node::IntLit(2));
    let sum = a.add_node(Node::BinOp(BinOpKind::Add, one, two));
    let lone = a.add_node(Node::IntLit(9));
    let list = a.add_node(Node::List(vec![sum, lone]));
    let root = a.adopt(list);
    a.step(root);
    let first = a.version_at(root, 0);
    match a.term(first) {
        Term::List(elems) => {
            assert_eq!(elems.len(), 2);
            for e in elems {
                assert_eq!(a.versions_len(*e), 0);
            }
        },
        other => panic!("expected a list, got {:?}", other),
    }
}

#[test]
fn building_an_attrset_evaluates_no_field() {
    let mut a = Arena::new();
    let one = a.add_node(Node::IntLit(1));
    let two = a.add_node(Node::IntLit(2));
    let set = a.add_node(Node::AttrSet(vec![
        (String::from("p"), one),
        (String::from("q"), two),
    ]));
    let root = a.adopt(set);
    a.step(root);
    let first = a.version_at(root, 0);
    match a.term(first) {
        Term::AttrSet(entries) => {
            assert_eq!(entries.len(), 2);
            for (_, e) in entries {
                assert_eq!(a.versions_len(*e), 0);
            }
        },
        other => panic!("expected an attribute set, got {:?}", other),
    }
}

#[test]
fn step_reports_intermediate_approximations_and_blocking() {
    let mut a = Arena::new();
    let one = a.add_node(Node::IntLit(1));
    let paren = a.add_node(Node::Paren(one));
    let root = a.adopt(paren);
    // First call: the root classifies to a wrapper — an intermediate
    // approximation, reported as such.
    let r1 = a.step(root);
    assert!(matches!(r1.map(|v| a.term(v)), Some(Term::Wrapper(_))));
    assert!(!a.is_value(root));
    // Second call: the reduction lands on the inner thunk; the root itself is
    // blocked on it, which is reported as nothing.
    let r2 = a.step(root);
    assert_eq!(r2, None);
    // Third call: the wrapper adopts the inner value.
    let r3 = a.step(root);
    assert!(matches!(r3.map(|v| a.term(v)), Some(Term::Integer(1))));
}

#[test]
fn inspection_forces_nothing() {
    let mut a = Arena::new();
    let one = a.add_node(Node::IntLit(1));
    let root = a.adopt(one);
    assert_eq!(a.as_value(root), None);
    assert!(!a.is_value(root));
    assert_eq!(a.versions_len(root), 0);
    assert_eq!(a.num_terms(), 0);
}

#[test]
fn argument_passed_by_need_is_never_forced() {
    let mut a = Arena::new();
    // A constant function applied to an argument that could never finish.
    let one = a.add_node(Node::IntLit(1));
    let lam = a.add_node(Node::Lambda(String::from("x"), one));
    let iy = a.add_node(Node::Ident(String::from("y")));
    let body = a.add_node(Node::Ident(String::from("y")));
    let diverging = a.add_node(Node::LetIn(vec![(String::from("y"), iy)], body));
    let app = a.add_node(Node::Apply(lam, diverging));
    let root = a.adopt(app);
    let v = drive(&mut a, root);
    assert!(matches!(a.term(v), Term::Integer(1)));
    match *a.term(a.version_at(root, 0)) {
        Term::Apply { argument, .. } => assert_eq!(a.versions_len(argument), 0),
        ref other => panic!("expected an application, got {:?}", other),
    }
}

#[test]
fn short_circuit_and_never_touches_the_right_operand() {
    let mut a = Arena::new();
    let f = a.add_node(Node::BoolLit(false));
    let one = a.add_node(Node::IntLit(1));
    let n = a.add_node(Node::BinOp(BinOpKind::And, f, one));
    let root = a.adopt(n);
    let v = drive(&mut a, root);
    assert!(matches!(a.term(v), Term::Boolean(false)));
    match *a.term(a.version_at(root, 0)) {
        Term::BinOp { rhs, .. } => assert_eq!(a.versions_len(rhs), 0),
        ref other => panic!("expected an operator, got {:?}", other),
    }
}

#[test]
fn short_circuit_or_never_touches_the_right_operand() {
    let mut a = Arena::new();
    let t = a.add_node(Node::BoolLit(true));
    let one = a.add_node(Node::IntLit(1));
    let n = a.add_node(Node::BinOp(BinOpKind::Or, t, one));
    let root = a.adopt(n);
    let v = drive(&mut a, root);
    assert!(matches!(a.term(v), Term::Boolean(true)));
    match *a.term(a.version_at(root, 0)) {
        Term::BinOp { rhs, .. } => assert_eq!(a.versions_len(rhs), 0),
        ref other => panic!("expected an operator, got {:?}", other),
    }
}

#[test]
fn short_circuit_implication_from_false_premise() {
    let mut a = Arena::new();
    let f = a.add_node(Node::BoolLit(false));
    let one = a.add_node(Node::IntLit(1));
    let n = a.add_node(Node::BinOp(BinOpKind::Implication, f, one));
    let root = a.adopt(n);
    let v = drive(&mut a, root);
    assert!(matches!(a.term(v), Term::Boolean(true)));
    match *a.term(a.version_at(root, 0)) {
        Term::BinOp { rhs, .. } => assert_eq!(a.versions_len(rhs), 0),
        ref other => panic!("expected an operator, got {:?}", other),
    }
}
