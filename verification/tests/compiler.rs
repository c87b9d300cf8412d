use lib::compile;
use lib::ir::{Expr, Primitive, Program};

/// Every node of `e`, preorder.
fn nodes(e: &Expr) -> Vec<&Expr> {
    let mut out = vec![e];
    match e {
        Expr::Call { args, .. } | Expr::Primitive { args, .. } => {
            for a in args {
                out.extend(nodes(a));
            }
        }
        Expr::If { condition, then_branch, else_branch } => {
            out.extend(nodes(condition));
            out.extend(nodes(then_branch));
            out.extend(nodes(else_branch));
        }
        Expr::Let { bindings, body } => {
            for (_, v) in bindings {
                out.extend(nodes(v));
            }
            out.extend(nodes(body));
        }
        Expr::Cons(a, b) => {
            out.extend(nodes(a));
            out.extend(nodes(b));
        }
        Expr::Car(a) | Expr::Cdr(a) | Expr::Null(a) => out.extend(nodes(a)),
        _ => {}
    }
    out
}

/// Every node of every body of the program.
fn program_nodes(program: &Program) -> Vec<&Expr> {
    let mut out = Vec::new();
    for d in &program.definitions {
        out.extend(nodes(&d.body));
    }
    if let Some(b) = &program.body {
        out.extend(nodes(b));
    }
    out
}

fn body_of<'a>(program: &'a Program, name: &str) -> &'a Expr {
    &program
        .definitions
        .iter()
        .find(|d| d.name == name)
        .unwrap_or_else(|| panic!("{name} was not emitted"))
        .body
}

fn is_call_of(e: &Expr, name: &str) -> bool {
    matches!(e, Expr::Call { callee, .. } if callee == name)
}

#[test]
fn rejects_cycles_that_reach_a_static_graph_output() {
    let source = "(define-graph cyclic\n  (nodes 3)\n  (inputs (0))\n  (outputs (2))\n  (edges (0 1 1) (1 2 1) (2 1 1)))\n(cyclic 4)";
    let error = compile(source).unwrap_err().to_string();
    assert!(error.contains("cycle on a live path"), "{error}");
}

#[test]
fn desugars_immediate_lambda_and_emits_let() {
    // `rec` cannot be inlined, so its result stays opaque and the immediately
    // invoked lambda still desugars to a `let`.
    let output = compile(
        "(define (rec n) (if (= n 0) 0 (+ 1 (rec (- n 1)))))\n\
         ((lambda (x) (+ x x)) (rec 3))",
    )
    .unwrap();
    let x = || Expr::Var("schemeLocal1_x".into());
    assert_eq!(
        output.body,
        Some(Expr::Let {
            bindings: vec![(
                "schemeLocal1_x".into(),
                Expr::Call { callee: "rec".into(), args: vec![Expr::Number(3)] },
            )],
            body: Box::new(Expr::Primitive { op: Primitive::Add, args: vec![x(), x()] }),
        }),
        "{output:?}"
    );
}

#[test]
fn compiles_nested_control_flow_and_signed_i24_arithmetic() {
    // Again the argument is opaque, so the branch cannot fold at compile time.
    let output = compile(
        "(define (rec n) (if (= n 0) 0 (+ 1 (rec (- n 1)))))\n\
         (define (f n)\n\
           (let ((x (if (< n +0) -7 2)))\n\
             (if (< x +0) (/ x 2) 0)))\n\
         (f (rec 3))",
    )
    .unwrap();
    let all = program_nodes(&output);
    assert!(all.iter().any(|e| **e == Expr::Number(-7)));
    assert!(all.iter().any(|e| **e == Expr::Number(0)));
    assert!(all.iter().any(|e| matches!(e, Expr::If { .. })));
}

#[test]
fn inlines_helpers_and_shares_repeated_numeric_work() {
    let output =
        compile("(define (square x) (* x x))\n(define (hot x) (+ (square x) (square x)))\n(hot 9)")
            .unwrap();
    assert_eq!(program_nodes(&output).iter().filter(|e| is_call_of(e, "square")).count(), 0);
    assert!(program_nodes(&output).iter().any(|e| matches!(e, Expr::Var(v) if v.starts_with("schemeOpt"))));
}

#[test]
fn emits_zero_annihilating_multiply_as_a_guarded_operation() {
    let output = compile(
        "(define (opaque n) (if (= n 0) 0 (opaque (- n 1))))\n\
         (mul0 (opaque 1) (opaque 2))",
    )
    .unwrap();
    let opaque = |n: i64| Expr::Call { callee: "opaque".into(), args: vec![Expr::Number(n)] };
    assert_eq!(
        output.body,
        Some(Expr::Primitive { op: Primitive::Mul0, args: vec![opaque(1), opaque(2)] }),
        "{output:?}"
    );
}

#[test]
fn unrolls_a_closed_scalar_tail_recurrence() {
    let output =
        compile("(define (sum n acc)\n  (if (= n 0) acc (sum (- n 1) (+ acc n))))\n(sum 4 0)")
            .unwrap();
    // One recursive call remains after the source iterations are fused into
    // the same function body, plus the initial call from main.
    let sum = nodes(body_of(&output, "sum"));
    assert_eq!(sum.iter().filter(|e| is_call_of(e, "sum")).count(), 1);
    assert!(output.body.as_ref().is_some_and(|b| is_call_of(b, "sum")));
    // Each fused iteration keeps its own exit test.
    assert!(sum.iter().filter(|e| matches!(e, Expr::If { .. })).count() >= 4);
}

#[test]
fn never_emits_bend_switch_for_signed_values() {
    // The IR has no switch construct: a branch on a signed value stays an
    // `if` all the way through.
    let output = compile("(define (count n) (if (= n 0) 0 (count (- n 1))))\n(count 3)").unwrap();
    assert!(nodes(body_of(&output, "count")).iter().any(|e| matches!(e, Expr::If { .. })), "{output:?}");
}

#[test]
fn propagates_constants_and_folds_the_dead_branch() {
    // The inliner substitutes `mode`, leaving a literal `let`; propagation
    // then folds the `if`, so the branch and its `* 10` arm leave the body.
    let output = compile(
        "(define (pick x mode) (if mode (+ x 1) (* x 10)))\n\
         (define (f n) (pick n +1))\n\
         (f 5)",
    )
    .unwrap();
    let f = nodes(body_of(&output, "f"));
    assert!(!f.iter().any(|e| matches!(e, Expr::Primitive { op: Primitive::Mul, .. })), "dead arm survived: {f:?}");
    assert!(
        f.iter().any(|e| matches!(e, Expr::Primitive { op: Primitive::Add, args } if args[1] == Expr::Number(1))),
        "{f:?}"
    );
}

#[test]
fn folds_a_closed_constant_program() {
    // With every input known, the cascade runs to a single literal.
    assert_eq!(compile("((lambda (x) (* x x)) 21)").unwrap().body, Some(Expr::Number(441)));
}

#[test]
fn rejects_numbers_outside_the_signed_i24_range() {
    assert!(compile("8388608").unwrap_err().to_string().contains("signed 24-bit"));
}

#[test]
fn rejects_mutation_and_first_class_functions() {
    assert!(compile("(set! x 1)").unwrap_err().to_string().contains("outside"));
    assert!(compile("((if #t f g) 1)").unwrap_err().to_string().contains("first-class"));
}
