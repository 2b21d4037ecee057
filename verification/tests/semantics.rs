use nde_core::eval::Arena;
use nde_core::syntax::{Anchor, BinOpKind, Node};
use nde_core::term::Term;

/// Step `root` until it yields a terminal value; panic if it never does.
fn run(a: &mut Arena, root: usize) -> usize {
    let mut k = 0;
    while !a.is_value(root) {
        a.step(root);
        k += 1;
        if k > 10_000 {
            panic!("no terminal value after many steps");
        }
    }
    a.as_value(root).expect("just settled")
}

/// Evaluate one binary operation over two literal nodes.
fn eval_binop(a: &mut Arena, op: BinOpKind, l: Node, r: Node) -> usize {
    let ln = a.add_node(l);
    let rn = a.add_node(r);
    let n = a.add_node(Node::BinOp(op, ln, rn));
    let root = a.adopt(n);
    run(a, root)
}

#[test]
fn arithmetic_formulas() {
    let mut a = Arena::new();
    let v = eval_binop(&mut a, BinOpKind::Sub, Node::IntLit(10), Node::IntLit(4));
    assert!(matches!(a.term(v), Term::Integer(6)));
    let v = eval_binop(&mut a, BinOpKind::Mul, Node::IntLit(6), Node::IntLit(7));
    assert!(matches!(a.term(v), Term::Integer(42)));
    let v = eval_binop(&mut a, BinOpKind::Div, Node::IntLit(7), Node::IntLit(2));
    assert!(matches!(a.term(v), Term::Integer(3)));
    let v = eval_binop(&mut a, BinOpKind::Div, Node::IntLit(-7), Node::IntLit(2));
    assert!(matches!(a.term(v), Term::Integer(-3)));
}

#[test]
fn comparison_formulas() {
    let mut a = Arena::new();
    let v = eval_binop(&mut a, BinOpKind::Less, Node::IntLit(1), Node::IntLit(2));
    assert!(matches!(a.term(v), Term::Boolean(true)));
    let v = eval_binop(&mut a, BinOpKind::MoreOrEq, Node::IntLit(1), Node::IntLit(2));
    assert!(matches!(a.term(v), Term::Boolean(false)));
    let v = eval_binop(&mut a, BinOpKind::More, Node::IntLit(3), Node::IntLit(2));
    assert!(matches!(a.term(v), Term::Boolean(true)));
    let v = eval_binop(&mut a, BinOpKind::LessOrEq, Node::IntLit(2), Node::IntLit(2));
    assert!(matches!(a.term(v), Term::Boolean(true)));
}

#[test]
fn equality_per_operand_type() {
    let mut a = Arena::new();
    let v = eval_binop(&mut a, BinOpKind::Equal, Node::NullLit, Node::NullLit);
    assert!(matches!(a.term(v), Term::Boolean(true)));
    let v = eval_binop(
        &mut a,
        BinOpKind::Equal,
        Node::StrLit(String::from("a")),
        Node::StrLit(String::from("a")),
    );
    assert!(matches!(a.term(v), Term::Boolean(true)));
    let v = eval_binop(
        &mut a,
        BinOpKind::NotEqual,
        Node::StrLit(String::from("a")),
        Node::StrLit(String::from("b")),
    );
    assert!(matches!(a.term(v), Term::Boolean(true)));
    let v = eval_binop(
        &mut a,
        BinOpKind::Equal,
        Node::PathLit(Anchor::Relative, String::from("x/y")),
        Node::PathLit(Anchor::Relative, String::from("x/y")),
    );
    assert!(matches!(a.term(v), Term::Boolean(true)));
    let v = eval_binop(
        &mut a,
        BinOpKind::Equal,
        Node::PathLit(Anchor::Absolute, String::from("x/y")),
        Node::PathLit(Anchor::Relative, String::from("x/y")),
    );
    assert!(matches!(a.term(v), Term::Boolean(false)));
}

#[test]
fn comparing_mismatched_types_is_an_error() {
    let mut a = Arena::new();
    let v = eval_binop(
        &mut a,
        BinOpKind::Equal,
        Node::IntLit(1),
        Node::StrLit(String::from("a")),
    );
    assert!(matches!(a.term(v), Term::Error));
    let v = eval_binop(
        &mut a,
        BinOpKind::Less,
        Node::BoolLit(true),
        Node::IntLit(1),
    );
    assert!(matches!(a.term(v), Term::Error));
}

#[test]
fn overflow_and_division_by_zero_are_error_values() {
    let mut a = Arena::new();
    let v = eval_binop(&mut a, BinOpKind::Add, Node::IntLit(i64::MAX), Node::IntLit(1));
    assert!(matches!(a.term(v), Term::Error));
    let v = eval_binop(&mut a, BinOpKind::Div, Node::IntLit(1), Node::IntLit(0));
    assert!(matches!(a.term(v), Term::Error));
    let v = eval_binop(&mut a, BinOpKind::Mul, Node::IntLit(i64::MIN), Node::IntLit(-1));
    assert!(matches!(a.term(v), Term::Error));
}

#[test]
fn error_propagates_through_operators() {
    let mut a = Arena::new();
    let z = a.add_node(Node::IntLit(0));
    let one = a.add_node(Node::IntLit(1));
    let bad = a.add_node(Node::BinOp(BinOpKind::Div, one, z));
    let two = a.add_node(Node::IntLit(2));
    let n = a.add_node(Node::BinOp(BinOpKind::Add, bad, two));
    let root = a.adopt(n);
    let v = run(&mut a, root);
    assert!(matches!(a.term(v), Term::Error));
}

#[test]
fn unbound_identifier_is_an_error() {
    let mut a = Arena::new();
    let n = a.add_node(Node::Ident(String::from("nowhere")));
    let root = a.adopt(n);
    let v = run(&mut a, root);
    assert!(matches!(a.term(v), Term::Error));
}

#[test]
fn applying_a_function_binds_the_argument_lazily() {
    let mut a = Arena::new();
    let body = a.add_node(Node::Ident(String::from("y")));
    let lam = a.add_node(Node::Lambda(String::from("y"), body));
    let five = a.add_node(Node::IntLit(5));
    let app = a.add_node(Node::Apply(lam, five));
    let root = a.adopt(app);
    let v = run(&mut a, root);
    assert!(matches!(a.term(v), Term::Integer(5)));
}

#[test]
fn applying_a_non_function_is_an_error() {
    let mut a = Arena::new();
    let one = a.add_node(Node::IntLit(1));
    let two = a.add_node(Node::IntLit(2));
    let app = a.add_node(Node::Apply(one, two));
    let root = a.adopt(app);
    let v = run(&mut a, root);
    assert!(matches!(a.term(v), Term::Error));
}

#[test]
fn condition_on_a_non_boolean_is_an_error() {
    let mut a = Arena::new();
    let one = a.add_node(Node::IntLit(1));
    let sa = a.add_node(Node::StrLit(String::from("a")));
    let sb = a.add_node(Node::StrLit(String::from("b")));
    let n = a.add_node(Node::IfElse(one, sa, sb));
    let root = a.adopt(n);
    let v = run(&mut a, root);
    assert!(matches!(a.term(v), Term::Error));
}

#[test]
fn assertion_on_a_non_boolean_is_an_error() {
    let mut a = Arena::new();
    let one = a.add_node(Node::IntLit(1));
    let two = a.add_node(Node::IntLit(2));
    let n = a.add_node(Node::Assert(one, two));
    let root = a.adopt(n);
    let v = run(&mut a, root);
    assert!(matches!(a.term(v), Term::Error));
}

#[test]
fn with_injects_attribute_names() {
    let mut a = Arena::new();
    let seven = a.add_node(Node::IntLit(7));
    let set = a.add_node(Node::AttrSet(vec![(String::from("p"), seven)]));
    let body = a.add_node(Node::Ident(String::from("p")));
    let n = a.add_node(Node::With(set, body));
    let root = a.adopt(n);
    let v = run(&mut a, root);
    assert!(matches!(a.term(v), Term::Integer(7)));
}

#[test]
fn lexical_binding_shadows_with_injection() {
    let mut a = Arena::new();
    let one = a.add_node(Node::IntLit(1));
    let two = a.add_node(Node::IntLit(2));
    let set = a.add_node(Node::AttrSet(vec![(String::from("p"), two)]));
    let body = a.add_node(Node::Ident(String::from("p")));
    let w = a.add_node(Node::With(set, body));
    let n = a.add_node(Node::LetIn(vec![(String::from("p"), one)], w));
    let root = a.adopt(n);
    let v = run(&mut a, root);
    assert!(matches!(a.term(v), Term::Integer(1)));
}

#[test]
fn inner_with_shadows_outer_with() {
    let mut a = Arena::new();
    let one = a.add_node(Node::IntLit(1));
    let two = a.add_node(Node::IntLit(2));
    let outer_set = a.add_node(Node::AttrSet(vec![(String::from("p"), one)]));
    let inner_set = a.add_node(Node::AttrSet(vec![(String::from("p"), two)]));
    let body = a.add_node(Node::Ident(String::from("p")));
    let inner = a.add_node(Node::With(inner_set, body));
    let n = a.add_node(Node::With(outer_set, inner));
    let root = a.adopt(n);
    let v = run(&mut a, root);
    assert!(matches!(a.term(v), Term::Integer(2)));
}

#[test]
fn mutually_referring_bindings_resolve_when_productive() {
    let mut a = Arena::new();
    let one = a.add_node(Node::IntLit(1));
    let ib = a.add_node(Node::Ident(String::from("b")));
    let body = a.add_node(Node::Ident(String::from("q")));
    let n = a.add_node(Node::LetIn(
        vec![(String::from("q"), ib), (String::from("b"), one)],
        body,
    ));
    let root = a.adopt(n);
    let v = run(&mut a, root);
    assert!(matches!(a.term(v), Term::Integer(1)));
}

#[test]
fn forcing_a_self_referential_binding_is_an_error() {
    let mut a = Arena::new();
    let ix = a.add_node(Node::Ident(String::from("x")));
    let body = a.add_node(Node::Ident(String::from("x")));
    let n = a.add_node(Node::LetIn(vec![(String::from("x"), ix)], body));
    let root = a.adopt(n);
    let v = run(&mut a, root);
    assert!(matches!(a.term(v), Term::Error));
}

#[test]
fn forcing_a_two_binding_cycle_is_an_error() {
    let mut a = Arena::new();
    let ib = a.add_node(Node::Ident(String::from("b")));
    let ia = a.add_node(Node::Ident(String::from("q")));
    let body = a.add_node(Node::Ident(String::from("q")));
    let n = a.add_node(Node::LetIn(
        vec![(String::from("q"), ib), (String::from("b"), ia)],
        body,
    ));
    let root = a.adopt(n);
    let v = run(&mut a, root);
    assert!(matches!(a.term(v), Term::Error));
}

#[test]
fn duplicate_attribute_names_are_an_error() {
    let mut a = Arena::new();
    let one = a.add_node(Node::IntLit(1));
    let two = a.add_node(Node::IntLit(2));
    let set = a.add_node(Node::AttrSet(vec![
        (String::from("p"), one),
        (String::from("p"), two),
    ]));
    let root = a.adopt(set);
    a.step(root);
    assert!(matches!(a.term(a.version_at(root, 0)), Term::Error));
}

#[test]
fn duplicate_let_names_are_an_error() {
    let mut a = Arena::new();
    let one = a.add_node(Node::IntLit(1));
    let two = a.add_node(Node::IntLit(2));
    let body = a.add_node(Node::Ident(String::from("p")));
    let n = a.add_node(Node::LetIn(
        vec![(String::from("p"), one), (String::from("p"), two)],
        body,
    ));
    let root = a.adopt(n);
    let v = run(&mut a, root);
    assert!(matches!(a.term(v), Term::Error));
}

#[test]
fn boolean_operators_with_forced_operands() {
    let mut a = Arena::new();
    let v = eval_binop(&mut a, BinOpKind::And, Node::BoolLit(true), Node::BoolLit(false));
    assert!(matches!(a.term(v), Term::Boolean(false)));
    let v = eval_binop(&mut a, BinOpKind::Or, Node::BoolLit(false), Node::BoolLit(true));
    assert!(matches!(a.term(v), Term::Boolean(true)));
    let v = eval_binop(&mut a, BinOpKind::Implication, Node::BoolLit(true), Node::BoolLit(false));
    assert!(matches!(a.term(v), Term::Boolean(false)));
    let v = eval_binop(&mut a, BinOpKind::And, Node::BoolLit(true), Node::IntLit(3));
    assert!(matches!(a.term(v), Term::Error));
    let v = eval_binop(&mut a, BinOpKind::And, Node::IntLit(3), Node::BoolLit(true));
    assert!(matches!(a.term(v), Term::Error));
}
