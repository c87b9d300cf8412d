use lib::ast::{self, parse_program};
use lib::graph::lower_graph;
use lib::ir::{fold_arithmetic, lower, Definition, Expr, Primitive, Program};
use lib::optimize::{fold_primitive, settle, share_common, simplify, Fresh, Options};
use lib::sexpr::{parse, SExpr};
use lib::shape::Shape;
use lib::{compile, compile_with_options};
use std::collections::BTreeSet;

fn no_opt() -> Options {
    Options {
        inline_helpers: false,
        common_subexpressions: false,
        tail_unroll: 1,
        constant_propagation: false,
        shape: Shape::AsWritten,
        peval: 0,
    }
}

fn error_of(source: &str) -> String {
    compile(source).unwrap_err().to_string()
}

fn var(name: &str) -> Expr {
    Expr::Var(name.into())
}

fn prim(op: Primitive, a: Expr, b: Expr) -> Expr {
    Expr::Primitive { op, args: vec![a, b] }
}

#[test]
fn options_default_to_every_optimization_and_no_partial_evaluation() {
    let options = Options::default();
    assert!(options.inline_helpers && options.common_subexpressions && options.constant_propagation);
    assert_eq!(options.tail_unroll, 8);
    assert_eq!(options.shape, Shape::AsWritten);
    assert_eq!(options.peval, 0);
}

#[test]
fn arithmetic_folds_only_inside_the_signed_24_bit_range() {
    assert_eq!(fold_arithmetic(Primitive::Add, 8_388_606, 1), Some(8_388_607));
    assert_eq!(fold_arithmetic(Primitive::Add, 8_388_607, 1), None);
    assert_eq!(fold_arithmetic(Primitive::Sub, -8_388_608, 1), None);
    assert_eq!(fold_arithmetic(Primitive::Mul, 4096, 2048), None);
    assert_eq!(fold_arithmetic(Primitive::Mul, -4096, 2048), Some(-8_388_608));
    assert_eq!(fold_arithmetic(Primitive::Div, -7, 2), Some(-3));
    assert_eq!(fold_arithmetic(Primitive::Div, 7, 0), None);
    assert_eq!(fold_arithmetic(Primitive::Mul0, 0, 5), None);
    assert_eq!(fold_arithmetic(Primitive::Lt, 1, 2), None);
}

#[test]
fn comparisons_fold_to_booleans() {
    let args = vec![Expr::Number(3), Expr::Number(3)];
    assert_eq!(fold_primitive(Primitive::Eq, &args), Some(Expr::Bool(true)));
    assert_eq!(fold_primitive(Primitive::Lt, &args), Some(Expr::Bool(false)));
    assert_eq!(fold_primitive(Primitive::Ge, &args), Some(Expr::Bool(true)));
    assert_eq!(fold_primitive(Primitive::Add, &vec![Expr::Number(3), var("x")]), None);
}

#[test]
fn simplify_takes_the_arm_a_literal_condition_selects() {
    let branch = |c: Expr| Expr::If {
        condition: Box::new(c),
        then_branch: Box::new(Expr::Number(1)),
        else_branch: Box::new(Expr::Number(2)),
    };
    assert_eq!(simplify(&branch(Expr::Bool(false))), Expr::Number(2));
    assert_eq!(simplify(&branch(Expr::Bool(true))), Expr::Number(1));
    assert_eq!(simplify(&branch(prim(Primitive::Lt, Expr::Number(1), Expr::Number(2)))), Expr::Number(1));
    assert_eq!(simplify(&branch(var("c"))), branch(var("c")));
}

#[test]
fn settle_stops_where_nothing_changes() {
    let body = prim(Primitive::Add, var("x"), Expr::Number(1));
    assert_eq!(settle(body.clone(), true), body);
}

#[test]
fn shared_work_is_bound_once_under_a_fresh_name() {
    let mut fresh = Fresh::default();
    let square = prim(Primitive::Mul, var("x"), var("x"));
    let shared = share_common(prim(Primitive::Add, square.clone(), square.clone()), &mut fresh);
    assert_eq!(
        shared,
        Expr::Let {
            bindings: vec![("schemeOpt0".into(), square)],
            body: Box::new(prim(Primitive::Add, var("schemeOpt0"), var("schemeOpt0"))),
        }
    );
}

#[test]
fn fresh_names_avoid_every_name_the_program_uses() {
    let program = Program {
        definitions: vec![Definition { name: "schemeOpt0".into(), params: vec!["schemeOpt2".into()], body: var("x") }],
        graphs: vec![],
        body: Some(var("schemeOpt1")),
    };
    let mut fresh = Fresh::from_program(&program);
    assert_eq!(fresh.local(), "schemeOpt3");
    assert_eq!(fresh.local(), "schemeOpt4");
}

#[test]
fn partial_evaluation_without_fuel_changes_nothing() {
    let program = Program {
        definitions: vec![Definition {
            name: "f".into(),
            params: vec![],
            body: prim(Primitive::Add, Expr::Number(1), Expr::Number(2)),
        }],
        graphs: vec![],
        body: Some(Expr::Call { callee: "f".into(), args: vec![] }),
    };
    let copy = Program {
        definitions: vec![Definition { name: "f".into(), params: vec![], body: program.definitions[0].body.clone() }],
        graphs: vec![],
        body: program.body.clone(),
    };
    assert_eq!(lib::peval::apply(program, 0), copy);
}

#[test]
fn shape_text_round_trips() {
    for shape in [Shape::AsWritten, Shape::Balanced, Shape::Chunked(3)] {
        assert_eq!(Shape::parse(&shape.to_text()), Some(shape));
    }
}

#[test]
fn locals_are_numbered_in_order_of_binding() {
    let output = compile_with_options("(define (f a b) (let ((c a)) c))\n(f 1 2)", no_opt()).unwrap();
    let f = &output.definitions[0];
    assert_eq!(f.params, vec!["schemeLocal0_a".to_string(), "schemeLocal1_b".to_string()]);
    assert_eq!(
        f.body,
        Expr::Let {
            bindings: vec![("schemeLocal2_c".into(), var("schemeLocal0_a"))],
            body: Box::new(var("schemeLocal2_c")),
        }
    );
}

#[test]
fn special_forms_call_their_runtime_helpers() {
    let output = compile_with_options("(map-get m 1 0)", no_opt()).unwrap();
    assert_eq!(
        output.body,
        Some(Expr::Call {
            callee: "__scheme_map_get".into(),
            args: vec![var("m"), Expr::Number(1), Expr::Number(0)],
        })
    );
    assert_eq!(error_of("(map-get m 1)"), "special form `map-get` has the wrong arity");
}

#[test]
fn lowering_reports_each_misuse() {
    assert_eq!(error_of("(+ 1 2 3)"), "primitive `+` expects exactly two arguments");
    assert_eq!(error_of("((lambda (x) x) 1 2)"), "lambda expects 1 argument(s), got 2");
    assert_eq!(error_of("(define f 1)\n(define f 2)\n(f)"), "duplicate top-level definition `f`");
    assert_eq!(error_of("-8388609"), "number `-8388609` is outside Bend's signed 24-bit range (-8388608..=8388607)");
    assert!(error_of("(lambda (x) x)").contains("first-class closures"));
    assert!(error_of("(define (f g) (g 1))\n(f 2)").contains("first-class functions"));
}

#[test]
fn the_reader_reports_what_it_cannot_read() {
    assert_eq!(error_of("'x"), "unsupported reader syntax starting with `'`");
    assert_eq!(error_of("(a \"b\")"), "unsupported reader syntax starting with `\"`");
    assert_eq!(error_of(")"), "unexpected `)`");
    assert_eq!(error_of("(+ 1 2"), "unclosed `(`");
    assert_eq!(
        parse("#f +5 99999999999999999999 x"),
        Ok(vec![
            SExpr::Bool(false),
            SExpr::Number(5),
            SExpr::Symbol("99999999999999999999".into()),
            SExpr::Symbol("x".into()),
        ])
    );
}

#[test]
fn the_parser_reports_malformed_forms() {
    assert_eq!(error_of("(define f)"), "define expects a name and exactly one expression");
    assert_eq!(error_of("(define (f x x) x)"), "duplicate lambda parameters: `x`");
    assert_eq!(error_of("(let ((x)) x)"), "each let binding must be (name expression)");
    assert_eq!(error_of("(let ((x 1) (x 2)) x)"), "duplicate let bindings: `x`");
    assert_eq!(error_of("(car 1 2)"), "car expects one argument");
    assert_eq!(error_of("(cons 1)"), "cons expects two arguments");
    assert_eq!(error_of("(if 1 2)"), "if expects condition, then, and else expressions");
    assert_eq!(error_of("(display 1)"), "`display` is intentionally outside scheme-bend");
    assert_eq!(error_of("1\n(define x 2)"), "a top-level define cannot follow the program expression");
    assert_eq!(error_of("1\n2"), "only one final top-level expression is supported");
}

#[test]
fn the_parser_checks_graph_declarations() {
    let graph = |edges: &str| format!("(define-graph g (nodes 3) (inputs (0)) (outputs (2)) (edges {edges}))\n(g 1)");
    assert_eq!(error_of(&graph("(0 5 1)")), "graph edge (0, 5) is outside the declared node range 0..3");
    assert_eq!(error_of(&graph("(0 1 0)")), "graph edges must have nonzero weights; omit zero edges");
    assert_eq!(error_of(&graph("(0 1 1) (0 1 2)")), "duplicate graph edge (0, 1)");
    assert_eq!(error_of(&graph("(1 0 1) (1 2 1)")), "graph input node 0 cannot have an incoming edge");
    assert_eq!(
        error_of("(define-graph g (nodes 3) (inputs (0 0)) (outputs (2)) (edges))\n1"),
        "duplicate graph inputs: `0`"
    );
    assert_eq!(
        error_of("(define-graph g (nodes 3) (inputs (7)) (outputs (2)) (edges))\n1"),
        "graph node 7 is outside the declared node range 0..3"
    );
    assert_eq!(
        error_of("(define-graph g (nodes x) (inputs (0)) (outputs (2)) (edges))\n1"),
        "graph nodes must be a nonnegative integer"
    );
}

#[test]
fn graphs_keep_only_live_nodes_in_dependency_order() {
    let source = "(define-graph g (nodes 5) (inputs (0)) (outputs (2)) (edges (0 1 2) (1 2 3) (2 4 1)))\n(g 5)";
    let program = lower(parse_program(parse(source).unwrap()).unwrap()).unwrap();
    let graph = &program.graphs[0];
    assert_eq!(graph.schedule, vec![1, 2]);
    assert_eq!(graph.live_nodes, BTreeSet::from([0, 1, 2]));
    assert_eq!(graph.edges.len(), 2);
}

#[test]
fn a_single_unroll_factor_leaves_recursion_alone() {
    let options = Options { tail_unroll: 1, ..Options::default() };
    let output = compile_with_options("(define (sum n acc)\n  (if (= n 0) acc (sum (- n 1) (+ acc n))))\n(sum 4 0)", options)
        .unwrap();
    let sum = &output.definitions[0].body;
    assert!(matches!(sum, Expr::If { else_branch, .. } if matches!(**else_branch, Expr::Call { .. })));
}

#[test]
fn settle_carries_literals_through_nested_bindings() {
    let inner = Expr::Let {
        bindings: vec![("y".into(), prim(Primitive::Add, var("x"), Expr::Number(2)))],
        body: Box::new(var("y")),
    };
    let outer = Expr::Let { bindings: vec![("x".into(), Expr::Number(1))], body: Box::new(inner) };
    assert_eq!(settle(outer, true), Expr::Number(3));
}

#[test]
fn settle_leaves_a_sum_that_would_wrap() {
    let body = Expr::Let {
        bindings: vec![("x".into(), Expr::Number(8_388_607))],
        body: Box::new(prim(Primitive::Add, var("x"), Expr::Number(1))),
    };
    assert_eq!(settle(body, true), prim(Primitive::Add, Expr::Number(8_388_607), Expr::Number(1)));
}

#[test]
fn settle_without_propagation_only_folds() {
    let body = Expr::Let {
        bindings: vec![("x".into(), Expr::Number(1))],
        body: Box::new(prim(Primitive::Mul, Expr::Number(6), Expr::Number(7))),
    };
    let expected = Expr::Let { bindings: vec![("x".into(), Expr::Number(1))], body: Box::new(Expr::Number(42)) };
    assert_eq!(settle(body, false), expected);
}

fn graph_with(edges: Vec<ast::GraphEdge>) -> ast::GraphDefinition {
    ast::GraphDefinition { name: "g".into(), nodes: 3, inputs: vec![0], outputs: vec![2], edges }
}

#[test]
fn the_graph_pass_names_the_first_bad_edge() {
    let heavy = ast::GraphEdge { src: 0, dst: 1, weight: 8_388_608 };
    let into_input = ast::GraphEdge { src: 1, dst: 0, weight: 1 };
    assert_eq!(
        lower_graph(&graph_with(vec![heavy, into_input])).unwrap_err().to_string(),
        "graph edge weight `8388608` is outside Bend's signed 24-bit range (-8388608..=8388607)"
    );
    assert_eq!(
        lower_graph(&graph_with(vec![into_input, heavy])).unwrap_err().to_string(),
        "graph input node 0 cannot have an incoming edge"
    );
    let loop_a = ast::GraphEdge { src: 1, dst: 2, weight: 1 };
    let loop_b = ast::GraphEdge { src: 2, dst: 1, weight: 1 };
    assert_eq!(
        lower_graph(&graph_with(vec![loop_a, loop_b])).unwrap_err().to_string(),
        "static graph contains a cycle on a live path; cyclic graphs are not supported yet"
    );
}

#[test]
fn the_schedule_takes_the_smallest_ready_node_first() {
    let source = "(define-graph g (nodes 4) (inputs (0)) (outputs (2)) (edges (0 3 1) (0 1 1) (3 2 1) (1 2 1)))\n(g 5)";
    let program = lower(parse_program(parse(source).unwrap()).unwrap()).unwrap();
    assert_eq!(program.graphs[0].schedule, vec![1, 3, 2]);
}
