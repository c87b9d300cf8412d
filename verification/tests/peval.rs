use lib::compile_with_options;
use lib::ir::{Expr, Primitive, Program};
use lib::optimize::Options;

fn compile_with(source: &str, fuel: u64) -> Program {
    compile_with_options(
        source,
        Options {
            peval: fuel,
            ..Options::default()
        },
    )
    .expect("compiles")
}

#[test]
fn folds_a_closed_call_to_its_value() {
    // `(double 21)` is closed, so partial evaluation knows it outright.
    let source = "(define (double x) (+ x x))\n(define (once) (double 21))\n(once)";
    assert_eq!(compile_with(source, 64).body, Some(Expr::Number(42)));
}

#[test]
fn sees_a_zero_that_was_computed_at_runtime() {
    // `w` returns 0 for every `i` it is asked about, and once the walk over
    // the literal range is unfolded the multiply is a literal `0 * ...`.
    let source = "(define (w i) 0)\n\
         (define (dot i n acc)\n\
           (if (> i n) acc (dot (+ i 1) n (+ acc (* (w i) i)))))\n\
         (dot 1 4 0)";
    let naive = compile_with(source, 0);
    let folded = compile_with(source, 64);
    assert_eq!(folded.body, Some(Expr::Number(0)), "{folded:?}");
    assert_ne!(naive.body, Some(Expr::Number(0)), "{naive:?}");
}

#[test]
fn fuel_bounds_how_far_it_goes() {
    let source = "(define (step n) (if (= n 0) 0 (+ 1 (step (- n 1)))))\n(step 32)";
    let shallow = compile_with(source, 4);
    let deep = compile_with(source, 4096);
    assert_eq!(deep.body, Some(Expr::Number(32)), "{deep:?}");
    assert_ne!(shallow.body, Some(Expr::Number(32)), "{shallow:?}");
}

#[test]
fn refuses_to_wrap_rather_than_disagreeing_with_the_runtime() {
    // 8,388,607 + 1 would wrap at runtime; folding it must not happen.
    let source = "(define (f) (+ 8388607 1))\n(f)";
    let folded = compile_with(source, 64);
    assert!(
        matches!(folded.body, Some(Expr::Primitive { op: Primitive::Add, .. })),
        "{folded:?}"
    );
    assert_ne!(folded.body, Some(Expr::Number(-8388608)), "{folded:?}");
}
