use lib::compile_with_options;
use lib::ir::{Expr, Program};
use lib::optimize::Options;
use lib::shape::Shape;

fn compile_with(source: &str, shape: Shape) -> Program {
    compile_with_options(
        source,
        Options {
            shape,
            ..Options::default()
        },
    )
    .expect("compiles")
}

/// Whether some definition's name holds `part`.
fn defines(program: &Program, part: &str) -> bool {
    program.definitions.iter().any(|d| d.name.contains(part))
}

/// How many calls of `callee` whose first argument is a number literal the
/// program makes.
fn literal_calls(program: &Program, callee: &str) -> usize {
    fn walk(e: &Expr, callee: &str) -> usize {
        match e {
            Expr::Call { callee: c, args } => {
                let here = usize::from(c == callee && matches!(args.first(), Some(Expr::Number(n)) if *n >= 0));
                here + args.iter().map(|a| walk(a, callee)).sum::<usize>()
            }
            Expr::Primitive { args, .. } => args.iter().map(|a| walk(a, callee)).sum(),
            Expr::If { condition, then_branch, else_branch } => {
                walk(condition, callee) + walk(then_branch, callee) + walk(else_branch, callee)
            }
            Expr::Let { bindings, body } => {
                bindings.iter().map(|(_, v)| walk(v, callee)).sum::<usize>() + walk(body, callee)
            }
            Expr::Cons(a, b) => walk(a, callee) + walk(b, callee),
            Expr::Car(a) | Expr::Cdr(a) | Expr::Null(a) => walk(a, callee),
            _ => 0,
        }
    }
    program.definitions.iter().map(|d| walk(&d.body, callee)).sum::<usize>()
        + program.body.as_ref().map_or(0, |b| walk(b, callee))
}

/// A big ascending reduction: `[1, 2048]` is over the reshape span.
const ASCENDING: &str = "(define (run i n acc)\n\
       (if (> i n)\n\
           acc\n\
           (run (+ i 1) n (+ acc i))))\n\
     (run 1 2048 0)";

/// The repeat idiom: descending, equality guard against a literal bound,
/// and an element that calls out. 2048 iterations so the span heuristic is
/// not what decides it.
const DESCENDING: &str = "(define (step k) (+ k k))\n\
     (define (run k acc)\n\
       (if (= k 0)\n\
           acc\n\
           (run (- k 1) (+ acc (step k)))))\n\
     (run 2048 0)";

#[test]
fn balanced_emits_a_tree_helper() {
    assert!(defines(&compile_with(ASCENDING, Shape::Balanced), "runShapeBalanced"));
}

#[test]
fn recognizes_the_descending_equality_guard() {
    assert!(defines(&compile_with(DESCENDING, Shape::Balanced), "runShapeBalanced"));
}

#[test]
fn refuses_a_modular_accumulator() {
    // Truncating `mod` and the 2^24 wrap are two different moduli, so once an
    // intermediate can wrap the representative depends on evaluation order.
    let source = "(define (mod- a m) (- a (* (/ a m) m)))\n\
         (define (run k acc)\n\
           (if (= k 0)\n\
               acc\n\
               (run (- k 1) (mod- (+ acc (mod- k 8388593)) 8388593))))\n\
         (run 2048 0)";
    assert_eq!(
        compile_with(source, Shape::Balanced),
        compile_with(source, Shape::AsWritten),
    );
}

#[test]
fn still_rewrites_plain_wrapping_arithmetic() {
    // A bare combiner stays sound however it wraps: 2^24 is a ring.
    let wrapping = "(define (run i n acc)\n\
           (if (> i n)\n\
               acc\n\
               (run (+ i 1) n (+ acc (* i 8388593)))))\n\
         (run 1 4096 0)";
    assert!(defines(&compile_with(wrapping, Shape::Balanced), "runShapeBalanced"));
}

#[test]
fn rewrites_calls_that_are_not_the_top_level_body() {
    // `once` wraps the reduction, so a top-level-only pass sees nothing.
    let source = "(define (step k) (+ k k))\n\
         (define (run k acc)\n\
           (if (= k 0)\n\
               acc\n\
               (run (- k 1) (+ acc (step k)))))\n\
         (define (once) (run 2048 0))\n\
         (once)";
    assert!(defines(&compile_with(source, Shape::Balanced), "ShapeBalanced"));
}

#[test]
fn leaves_small_trivial_reductions_alone() {
    // 64 iterations of `(+ acc i)`: below the span heuristic, and the element
    // is trivial, so the combine nodes would not be repaid.
    let small = "(define (run i n acc)\n\
           (if (> i n)\n\
               acc\n\
               (run (+ i 1) n (+ acc i))))\n\
         (run 1 64 0)";
    assert_eq!(
        compile_with(small, Shape::Balanced),
        compile_with(small, Shape::AsWritten),
    );
}

#[test]
fn chunked_leaves_call_the_chain_with_literal_bounds() {
    let output = compile_with(ASCENDING, Shape::Chunked(4));
    assert!(!defines(&output, "ShapeBalanced"), "{output:?}");
    assert_eq!(literal_calls(&output, "run"), 4, "{output:?}");
}

#[test]
fn never_rewrites_a_non_associative_combiner() {
    let subtraction = "(define (run i n acc)\n\
           (if (> i n)\n\
               acc\n\
               (run (+ i 1) n (- acc i))))\n\
         (run 1 2048 0)";
    assert_eq!(
        compile_with(subtraction, Shape::Balanced),
        compile_with(subtraction, Shape::AsWritten),
    );
}

#[test]
fn never_rewrites_an_element_that_reads_more_than_the_counter() {
    // `n` is not the counter, so the element cannot be moved into a leaf.
    let source = "(define (run i n acc)\n\
           (if (> i n)\n\
               acc\n\
               (run (+ i 1) n (+ acc (- n i)))))\n\
         (run 1 2048 0)";
    assert_eq!(
        compile_with(source, Shape::Balanced),
        compile_with(source, Shape::AsWritten),
    );
}

#[test]
fn shape_specs_round_trip() {
    assert_eq!(Shape::parse("asis"), Some(Shape::AsWritten));
    assert_eq!(Shape::parse("balanced"), Some(Shape::Balanced));
    assert_eq!(Shape::parse("chunked:8"), Some(Shape::Chunked(8)));
    assert_eq!(Shape::parse("chunked:0"), None);
    assert_eq!(Shape::parse("chunked:x"), None);
    assert_eq!(Shape::parse("sideways"), None);
}

/// The literal bounds of every call of `callee` whose first two arguments
/// are number literals, in the order they appear.
fn segment_bounds(program: &Program, callee: &str) -> Vec<(i64, i64)> {
    fn walk(e: &Expr, callee: &str, out: &mut Vec<(i64, i64)>) {
        match e {
            Expr::Call { callee: c, args } => {
                if c == callee {
                    if let (Some(Expr::Number(lo)), Some(Expr::Number(hi))) = (args.first(), args.get(1)) {
                        out.push((*lo, *hi));
                    }
                }
                args.iter().for_each(|a| walk(a, callee, out));
            }
            Expr::Primitive { args, .. } => args.iter().for_each(|a| walk(a, callee, out)),
            Expr::If { condition, then_branch, else_branch } => {
                walk(condition, callee, out);
                walk(then_branch, callee, out);
                walk(else_branch, callee, out);
            }
            Expr::Let { bindings, body } => {
                bindings.iter().for_each(|(_, v)| walk(v, callee, out));
                walk(body, callee, out);
            }
            Expr::Cons(a, b) => {
                walk(a, callee, out);
                walk(b, callee, out);
            }
            Expr::Car(a) | Expr::Cdr(a) | Expr::Null(a) => walk(a, callee, out),
            _ => {}
        }
    }
    let mut out = Vec::new();
    if let Some(b) = program.body.as_ref() {
        walk(b, callee, &mut out);
    }
    out
}

#[test]
fn chunks_split_the_range_at_its_midpoint() {
    let two = compile_with(ASCENDING, Shape::Chunked(2));
    assert_eq!(segment_bounds(&two, "run"), vec![(1, 1024), (1025, 2048)], "{two:?}");
    let four = compile_with(ASCENDING, Shape::Chunked(4));
    assert_eq!(
        segment_bounds(&four, "run"),
        vec![(1, 512), (513, 1024), (1025, 1536), (1537, 2048)],
        "{four:?}"
    );
}

#[test]
fn one_chunk_is_the_whole_chain_from_the_identity() {
    let one = compile_with(ASCENDING, Shape::Chunked(1));
    assert_eq!(segment_bounds(&one, "run"), vec![(1, 2048)], "{one:?}");
}
