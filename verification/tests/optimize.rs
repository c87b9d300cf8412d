use lib::ir::{Expr, Primitive};
use lib::optimize::{drop_unused_bindings, settle, share_common, Fresh};

#[test]
fn shares_a_repeated_square() {
    let mut fresh = Fresh::default();
    let square = Expr::Primitive {
        op: Primitive::Mul,
        args: vec![Expr::Var("x".into()), Expr::Var("x".into())],
    };
    let optimized = share_common(
        Expr::Primitive {
            op: Primitive::Add,
            args: vec![square.clone(), square],
        },
        &mut fresh,
    );
    assert!(matches!(optimized, Expr::Let { .. }));
}

#[test]
fn propagates_literals_so_constant_branches_fold() {
    // Mirrors what the inliner produces: `mode` becomes a literal binding.
    let body = Expr::Let {
        bindings: vec![
            ("x".into(), Expr::Var("arg".into())),
            ("mode".into(), Expr::Number(1)),
        ],
        body: Box::new(Expr::If {
            condition: Box::new(Expr::Var("mode".into())),
            then_branch: Box::new(Expr::Primitive {
                op: Primitive::Add,
                args: vec![Expr::Var("x".into()), Expr::Number(1)],
            }),
            else_branch: Box::new(Expr::Primitive {
                op: Primitive::Mul,
                args: vec![Expr::Var("x".into()), Expr::Number(10)],
            }),
        }),
    };
    let optimized = settle(body, true);
    assert!(!format!("{optimized:?}").contains("Mul"));
    assert!(!format!("{optimized:?}").contains("mode"));
}

#[test]
fn folds_if_on_a_numeric_condition() {
    let body = Expr::If {
        condition: Box::new(Expr::Number(-5)),
        then_branch: Box::new(Expr::Number(1)),
        else_branch: Box::new(Expr::Number(2)),
    };
    assert_eq!(settle(body.clone(), true), Expr::Number(1));
    let zero = Expr::If {
        condition: Box::new(Expr::Number(0)),
        then_branch: Box::new(Expr::Number(1)),
        else_branch: Box::new(Expr::Number(2)),
    };
    assert_eq!(settle(zero, true), Expr::Number(2));
}

#[test]
fn drops_unused_bindings_but_keeps_calls_and_division() {
    // Unused and cheap: dropped.
    let cheap = Expr::Let {
        bindings: vec![("dead".into(), Expr::Number(7))],
        body: Box::new(Expr::Number(1)),
    };
    assert_eq!(drop_unused_bindings(cheap), Expr::Number(1));
    // Unused but calls a function: kept, because dropping could change
    // termination.
    let calling = Expr::Let {
        bindings: vec![(
            "dead".into(),
            Expr::Call {
                callee: "f".into(),
                args: vec![],
            },
        )],
        body: Box::new(Expr::Number(1)),
    };
    assert!(matches!(drop_unused_bindings(calling), Expr::Let { .. }));
    // Unused but divides: kept, because dropping could delete an error.
    let dividing = Expr::Let {
        bindings: vec![(
            "dead".into(),
            Expr::Primitive {
                op: Primitive::Div,
                args: vec![Expr::Number(1), Expr::Number(0)],
            },
        )],
        body: Box::new(Expr::Number(1)),
    };
    assert!(matches!(drop_unused_bindings(dividing), Expr::Let { .. }));
}

#[test]
fn does_not_hoist_division() {
    let mut fresh = Fresh::default();
    let division = Expr::Primitive {
        op: Primitive::Div,
        args: vec![Expr::Var("x".into()), Expr::Var("y".into())],
    };
    let optimized = share_common(
        Expr::Primitive {
            op: Primitive::Add,
            args: vec![division.clone(), division],
        },
        &mut fresh,
    );
    assert!(!matches!(optimized, Expr::Let { .. }));
}

#[test]
fn sharing_may_lift_a_tree_above_the_let_that_binds_its_variable() {
    // (let ((x y)) (if (+ x 1) (* (+ x 1) 2) (* (+ x 1) 2)))
    let x_plus_one = Expr::Primitive {
        op: Primitive::Add,
        args: vec![Expr::Var("x".into()), Expr::Number(1)],
    };
    let doubled = Expr::Primitive {
        op: Primitive::Mul,
        args: vec![x_plus_one.clone(), Expr::Number(2)],
    };
    let choice = Expr::If {
        condition: Box::new(x_plus_one.clone()),
        then_branch: Box::new(doubled.clone()),
        else_branch: Box::new(doubled),
    };
    let expr = Expr::Let {
        bindings: vec![("x".into(), Expr::Var("y".into()))],
        body: Box::new(choice),
    };
    let mut fresh = Fresh::default();
    match share_common(expr, &mut fresh) {
        Expr::Let { bindings, body } => {
            assert_eq!(bindings.len(), 1);
            assert_eq!(bindings[0].1, x_plus_one);
            match *body {
                Expr::Let { bindings, .. } => assert_eq!(bindings[0].0, "x"),
                other => panic!("expected the binding of x inside, got {other:?}"),
            }
        }
        other => panic!("expected a hoisted binding outside, got {other:?}"),
    }
}

#[test]
fn substituting_a_shared_binding_back_gives_the_expression() {
    let square = Expr::Primitive {
        op: Primitive::Mul,
        args: vec![Expr::Var("x".into()), Expr::Var("x".into())],
    };
    let sum = Expr::Primitive {
        op: Primitive::Add,
        args: vec![square.clone(), square.clone()],
    };
    match share_common(sum, &mut Fresh::default()) {
        Expr::Let { bindings, body } => {
            assert_eq!(bindings.len(), 1);
            let (name, value) = &bindings[0];
            assert_eq!(*value, square);
            assert_eq!(
                *body,
                Expr::Primitive {
                    op: Primitive::Add,
                    args: vec![Expr::Var(name.clone()), Expr::Var(name.clone())],
                }
            );
        }
        other => panic!("expected the square to be shared, got {other:?}"),
    }
}

#[test]
fn sharing_may_leave_a_binding_to_a_plain_local() {
    // (+ (+ (* x y) (* x y)) (* x y)): the inner sum shares `(* x y)` first;
    // the outer sum then shares it again, out of the inner binding's value.
    let product = Expr::Primitive {
        op: Primitive::Mul,
        args: vec![Expr::Var("x".into()), Expr::Var("y".into())],
    };
    let inner = Expr::Primitive {
        op: Primitive::Add,
        args: vec![product.clone(), product.clone()],
    };
    let expr = Expr::Primitive {
        op: Primitive::Add,
        args: vec![inner, product.clone()],
    };
    match share_common(expr, &mut Fresh::default()) {
        Expr::Let { bindings, body } => {
            assert_eq!(bindings.len(), 1);
            let (outer, value) = &bindings[0];
            assert_eq!(*value, product);
            match *body {
                Expr::Primitive { op: Primitive::Add, args } => {
                    assert_eq!(args[1], Expr::Var(outer.clone()));
                    match &args[0] {
                        Expr::Let { bindings, .. } => {
                            assert_eq!(bindings.len(), 1);
                            assert_eq!(bindings[0].1, Expr::Var(outer.clone()));
                        }
                        other => panic!("expected the inner binding, got {other:?}"),
                    }
                }
                other => panic!("expected the outer sum, got {other:?}"),
            }
        }
        other => panic!("expected the product to be shared, got {other:?}"),
    }
}
