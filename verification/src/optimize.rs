//! Bend-aware, source-level optimizations over the small functional IR.
//!
//! These passes never change the target: their output is still ordinary Bend
//! source. Their job is to reduce the number of calls and numeric interaction
//! nodes that the Bend compiler needs to lower.
use crate::ir::{
    add_capped, binding_terms_of, capped, copy_expr, fold_arithmetic, folded, lemma_binding_terms_of,
    lemma_terms_of, names_of, option_term, term_of, terms_of, copy_bindings, Expr, Primitive, Term,
};
use crate::ir::{copy_definition, copy_names, count_nodes, defs_of, node_count, DefTerm, Definition, Program, ProgramTerm};
use crate::peval::{find_def, lookup, lookup_def, lookup_env, pevaled, Env};
use crate::shape::{calls, calls_name, contains_call, has_call, reshaped, Shape};
use crate::text::{decimal, lemma_decimal_digits, push_decimal, push_str};
use vstd::prelude::*;

verus! {

/// Tuning knobs for the whole-program optimizer.
#[derive(Debug, Clone, Copy, PartialEq, Eq)]
pub struct Options {
    /// Inline small, call-free top-level helpers at their direct call sites.
    pub inline_helpers: bool,
    /// Share repeated total numeric expressions, such as `(* zr zr)`.
    pub common_subexpressions: bool,
    /// Number of scalar tail-recursion iterations to place in one emitted
    /// Bend function body. `1` leaves recursion unchanged. More fusion means
    /// fewer recursive call expansions but a larger emitted function.
    ///
    /// Defaults to 8: past that, the larger function body costs more than
    /// the saved call expansions return.
    pub tail_unroll: usize,
    /// Substitute literal `let` bindings into their uses so that conditions
    /// over them can fold.
    pub constant_propagation: bool,
    /// Which shape to emit for a recognized associative reduction.
    pub shape: Shape,
    /// Fuel for partial evaluation: how many calls it may inline. `0` turns
    /// it off.
    pub peval: u64,
}

/// Every optimization on, eight-way unrolling, reductions as written and no
/// partial evaluation.
pub open spec fn default_options() -> Options {
    Options {
        inline_helpers: true,
        common_subexpressions: true,
        tail_unroll: 8,
        constant_propagation: true,
        shape: Shape::AsWritten,
        peval: 0,
    }
}

impl Default for Options {
    /// Every optimization on, eight-way unrolling, reductions as written and
    /// no partial evaluation.
    fn default() -> (r: Options)
        ensures
            r == default_options(),
    {
        Options {
            inline_helpers: true,
            common_subexpressions: true,
            tail_unroll: 8,
            constant_propagation: true,
            shape: Shape::AsWritten,
            peval: 0,
        }
    }
}

// ---------------------------------------------------------------------------
// Classifying expressions
// ---------------------------------------------------------------------------

/// A literal a condition can fold on: a number or a boolean.
pub open spec fn is_scalar_literal(t: Term) -> bool {
    t is Number || t is Bool
}

/// Whether `e` is a number or boolean literal.
pub fn is_literal(e: &Expr) -> (r: bool)
    ensures
        r == is_scalar_literal(e@),
{
    matches!(e, Expr::Number(_) | Expr::Bool(_))
}

/// Dropping `t` unused is guaranteed safe: it has no call, which could change
/// termination, and no division, which could delete an error.
pub open spec fn droppable_term(t: Term) -> bool
    decreases t,
{
    match t {
        Term::Number(_) | Term::Bool(_) | Term::Var(_) | Term::Nil => true,
        Term::Primitive { op, args } => !(op is Div) && droppable_all(args),
        _ => false,
    }
}

pub open spec fn droppable_all(s: Seq<Term>) -> bool
    decreases s,
{
    s.len() == 0 || (droppable_all(s.drop_last()) && droppable_term(s.last()))
}

/// Whether dropping `e` as unused is guaranteed safe.
#[verifier::loop_isolation(false)]
pub fn droppable(e: &Expr) -> (r: bool)
    ensures
        r == droppable_term(e@),
    decreases e,
{
    match e {
        Expr::Number(_) | Expr::Bool(_) | Expr::Var(_) | Expr::Nil => true,
        Expr::Primitive { op: Primitive::Div, .. } => false,
        Expr::Primitive { args, .. } => {
            let mut ok = true;
            let mut i: usize = 0;
            while i < args.len()
                invariant
                    i <= args.len(),
                    ok == droppable_all(terms_of(args@.take(i as int))),
                decreases args.len() - i,
            {
                proof {
                    assert(decreases_to!(e => args@[i as int]));
                    assert(args@.take(i + 1).drop_last() =~= args@.take(i as int));
                    let pre = terms_of(args@.take(i as int));
                    assert(pre.push(term_of(args@[i as int])).drop_last() =~= pre);
                }
                ok = ok && droppable(&args[i]);
                i = i + 1;
            }
            proof { assert(args@.take(args.len() as int) =~= args@); }
            ok
        },
        _ => false,
    }
}

/// A numeric tree that always evaluates: numbers and variables joined by
/// primitives other than division.
pub open spec fn total_numeric(t: Term) -> bool
    decreases t,
{
    match t {
        Term::Number(_) | Term::Var(_) => true,
        Term::Primitive { op, args } => !(op is Div) && total_numeric_all(args),
        _ => false,
    }
}

pub open spec fn total_numeric_all(s: Seq<Term>) -> bool
    decreases s,
{
    s.len() == 0 || (total_numeric_all(s.drop_last()) && total_numeric(s.last()))
}

/// Whether `e` is a total numeric tree.
#[verifier::loop_isolation(false)]
pub fn total_numeric_tree(e: &Expr) -> (r: bool)
    ensures
        r == total_numeric(e@),
    decreases e,
{
    match e {
        Expr::Number(_) | Expr::Var(_) => true,
        Expr::Primitive { op: Primitive::Div, .. } => false,
        Expr::Primitive { args, .. } => {
            let mut ok = true;
            let mut i: usize = 0;
            while i < args.len()
                invariant
                    i <= args.len(),
                    ok == total_numeric_all(terms_of(args@.take(i as int))),
                decreases args.len() - i,
            {
                proof {
                    assert(decreases_to!(e => args@[i as int]));
                    assert(args@.take(i + 1).drop_last() =~= args@.take(i as int));
                    let pre = terms_of(args@.take(i as int));
                    assert(pre.push(term_of(args@[i as int])).drop_last() =~= pre);
                }
                ok = ok && total_numeric_tree(&args[i]);
                i = i + 1;
            }
            proof { assert(args@.take(args.len() as int) =~= args@); }
            ok
        },
        _ => false,
    }
}

/// The number of primitive operations at the top of `t`: a primitive counts
/// itself and its arguments' operations, anything else counts nothing.
pub open spec fn cost_of(t: Term) -> nat
    decreases t,
{
    match t {
        Term::Primitive { args, .. } => 1 + costs_of(args),
        _ => 0,
    }
}

pub open spec fn costs_of(s: Seq<Term>) -> nat
    decreases s,
{
    if s.len() == 0 {
        0
    } else {
        costs_of(s.drop_last()) + cost_of(s.last())
    }
}

/// The numeric cost of `e`, or `usize::MAX` when it is larger.
#[verifier::loop_isolation(false)]
pub fn numeric_cost(e: &Expr) -> (r: usize)
    ensures
        r == capped(cost_of(e@)),
    decreases e,
{
    match e {
        Expr::Primitive { args, .. } => {
            let mut total: usize = 0;
            let mut i: usize = 0;
            while i < args.len()
                invariant
                    i <= args.len(),
                    total == capped(costs_of(terms_of(args@.take(i as int)))),
                decreases args.len() - i,
            {
                proof {
                    assert(decreases_to!(e => args@[i as int]));
                    assert(args@.take(i + 1).drop_last() =~= args@.take(i as int));
                    let pre = terms_of(args@.take(i as int));
                    assert(pre.push(term_of(args@[i as int])).drop_last() =~= pre);
                }
                let c = numeric_cost(&args[i]);
                total = add_capped(total, c);
                i = i + 1;
            }
            proof { assert(args@.take(args.len() as int) =~= args@); }
            add_capped(1, total)
        },
        _ => 0,
    }
}

// ---------------------------------------------------------------------------
// Folding
// ---------------------------------------------------------------------------

/// The value of a primitive on two number literals: comparisons give a
/// boolean, arithmetic gives its exact result when that stays in the signed
/// 24-bit range. Anything else does not fold.
pub open spec fn fold_spec(op: Primitive, args: Seq<Term>) -> Option<Term> {
    if args.len() == 2 {
        match (args[0], args[1]) {
            (Term::Number(l), Term::Number(r)) => match op {
                Primitive::Eq => Some(Term::Bool(l == r)),
                Primitive::Lt => Some(Term::Bool(l < r)),
                Primitive::Gt => Some(Term::Bool(l > r)),
                Primitive::Le => Some(Term::Bool(l <= r)),
                Primitive::Ge => Some(Term::Bool(l >= r)),
                _ => match folded(op, l as int, r as int) {
                    Some(v) => Some(Term::Number(v as i64)),
                    None => None,
                },
            },
            _ => None,
        }
    } else {
        None
    }
}

/// The folded value of `op` on `args`, if it has one.
pub fn fold_primitive(op: Primitive, args: &Vec<Expr>) -> (r: Option<Expr>)
    ensures
        option_term(r) == fold_spec(op, terms_of(args@)),
{
    proof { lemma_terms_of(args@); }
    if args.len() != 2 {
        return None;
    }
    match (&args[0], &args[1]) {
        (Expr::Number(l), Expr::Number(r)) => {
            let (l, r) = (*l, *r);
            match op {
                Primitive::Eq => Some(Expr::Bool(l == r)),
                Primitive::Lt => Some(Expr::Bool(l < r)),
                Primitive::Gt => Some(Expr::Bool(l > r)),
                Primitive::Le => Some(Expr::Bool(l <= r)),
                Primitive::Ge => Some(Expr::Bool(l >= r)),
                _ => match fold_arithmetic(op, l, r) {
                    Some(v) => Some(Expr::Number(v)),
                    None => None,
                },
            }
        },
        _ => None,
    }
}


/// `t` with every foldable primitive folded and every `if` on a literal
/// condition replaced by the arm it takes. Bend's `if` is a switch: `0` and
/// `#f` are false, every other number (a negative one too) is true.
pub open spec fn simplified(t: Term) -> Term
    decreases t,
{
    match t {
        Term::Primitive { op, args } => {
            let a = simplified_all(args);
            match fold_spec(op, a) {
                Some(v) => v,
                None => Term::Primitive { op, args: a },
            }
        },
        Term::If { condition, then_branch, else_branch } => {
            let c = simplified(*condition);
            let a = simplified(*then_branch);
            let b = simplified(*else_branch);
            match c {
                Term::Bool(v) => if v {
                    a
                } else {
                    b
                },
                Term::Number(n) => if n == 0 {
                    b
                } else {
                    a
                },
                _ => Term::If { condition: Box::new(c), then_branch: Box::new(a), else_branch: Box::new(b) },
            }
        },
        Term::Let { bindings, body } => Term::Let {
            bindings: simplified_bindings(bindings),
            body: Box::new(simplified(*body)),
        },
        Term::Call { callee, args } => Term::Call { callee, args: simplified_all(args) },
        Term::Cons(h, tl) => Term::Cons(Box::new(simplified(*h)), Box::new(simplified(*tl))),
        Term::Car(v) => Term::Car(Box::new(simplified(*v))),
        Term::Cdr(v) => Term::Cdr(Box::new(simplified(*v))),
        Term::Null(v) => Term::Null(Box::new(simplified(*v))),
        _ => t,
    }
}

pub open spec fn simplified_all(s: Seq<Term>) -> Seq<Term>
    decreases s,
{
    if s.len() == 0 {
        s
    } else {
        simplified_all(s.drop_last()).push(simplified(s.last()))
    }
}

pub open spec fn simplified_bindings(s: Seq<(Seq<char>, Term)>) -> Seq<(Seq<char>, Term)>
    decreases s,
{
    if s.len() == 0 {
        s
    } else {
        simplified_bindings(s.drop_last()).push((s.last().0, simplified(s.last().1)))
    }
}

/// An `if` on a number literal takes its else arm exactly when the number is
/// zero; every other number, negative ones included, takes the then arm.
pub proof fn lemma_numeric_condition(n: i64, a: Term, b: Term)
    ensures
        simplified(Term::If { condition: Box::new(Term::Number(n)), then_branch: Box::new(a), else_branch: Box::new(b) })
            == if n == 0 {
            simplified(b)
        } else {
            simplified(a)
        },
{
    assert(simplified(Term::Number(n)) == Term::Number(n));
}

fn simplify_all(args: &Vec<Expr>) -> (r: Vec<Expr>)
    ensures
        terms_of(r@) == simplified_all(terms_of(args@)),
    decreases args, 0nat,
{
    let mut out: Vec<Expr> = Vec::new();
    let mut i: usize = 0;
    while i < args.len()
        invariant
            i <= args.len(),
            terms_of(out@) == simplified_all(terms_of(args@.take(i as int))),
        decreases args.len() - i,
    {
        proof {
            assert(decreases_to!(args => args@[i as int]));
            assert(args@.take(i + 1).drop_last() =~= args@.take(i as int));
            let pre = terms_of(args@.take(i as int));
            assert(pre.push(term_of(args@[i as int])).drop_last() =~= pre);
        }
        let x = simplify(&args[i]);
        proof { assert(out@.push(x).drop_last() =~= out@); }
        out.push(x);
        i = i + 1;
    }
    proof { assert(args@.take(args.len() as int) =~= args@); }
    out
}

fn simplify_bindings(bindings: &Vec<(String, Expr)>) -> (r: Vec<(String, Expr)>)
    ensures
        binding_terms_of(r@) == simplified_bindings(binding_terms_of(bindings@)),
    decreases bindings, 0nat,
{
    let mut out: Vec<(String, Expr)> = Vec::new();
    let mut i: usize = 0;
    while i < bindings.len()
        invariant
            i <= bindings.len(),
            binding_terms_of(out@) == simplified_bindings(binding_terms_of(bindings@.take(i as int))),
        decreases bindings.len() - i,
    {
        proof {
            assert(decreases_to!(bindings => bindings@[i as int].1));
            assert(bindings@.take(i + 1).drop_last() =~= bindings@.take(i as int));
            let pre = binding_terms_of(bindings@.take(i as int));
            let b = bindings@[i as int];
            assert(pre.push((b.0@, term_of(b.1))).drop_last() =~= pre);
        }
        let pair = (bindings[i].0.clone(), simplify(&bindings[i].1));
        proof { assert(out@.push(pair).drop_last() =~= out@); }
        out.push(pair);
        i = i + 1;
    }
    proof { assert(bindings@.take(bindings.len() as int) =~= bindings@); }
    out
}

/// Fold what folds, bottom-up.
pub fn simplify(e: &Expr) -> (r: Expr)
    ensures
        r@ == simplified(e@),
    decreases e,
{
    match e {
        Expr::Primitive { op, args } => {
            let a = simplify_all(args);
            match fold_primitive(*op, &a) {
                Some(v) => v,
                None => Expr::Primitive { op: *op, args: a },
            }
        },
        Expr::If { condition, then_branch, else_branch } => {
            let c = simplify(condition);
            let a = simplify(then_branch);
            let b = simplify(else_branch);
            match c {
                Expr::Bool(v) => if v {
                    a
                } else {
                    b
                },
                Expr::Number(n) => if n == 0 {
                    b
                } else {
                    a
                },
                c => Expr::If { condition: Box::new(c), then_branch: Box::new(a), else_branch: Box::new(b) },
            }
        },
        Expr::Let { bindings, body } => Expr::Let {
            bindings: simplify_bindings(bindings),
            body: Box::new(simplify(body)),
        },
        Expr::Call { callee, args } => Expr::Call { callee: callee.clone(), args: simplify_all(args) },
        Expr::Cons(h, t) => Expr::Cons(Box::new(simplify(h)), Box::new(simplify(t))),
        Expr::Car(v) => Expr::Car(Box::new(simplify(v))),
        Expr::Cdr(v) => Expr::Cdr(Box::new(simplify(v))),
        Expr::Null(v) => Expr::Null(Box::new(simplify(v))),
        other => copy_expr(other),
    }
}


// ---------------------------------------------------------------------------
// Literal propagation
// ---------------------------------------------------------------------------

/// `t` with every variable bound in `env` replaced by its latest value there.
pub open spec fn replaced(t: Term, env: Env) -> Term
    decreases t,
{
    match t {
        Term::Var(n) => match lookup(env, n) {
            Some(v) => v,
            None => t,
        },
        Term::Primitive { op, args } => Term::Primitive { op, args: replaced_all(args, env) },
        Term::Call { callee, args } => Term::Call { callee, args: replaced_all(args, env) },
        Term::If { condition, then_branch, else_branch } => Term::If {
            condition: Box::new(replaced(*condition, env)),
            then_branch: Box::new(replaced(*then_branch, env)),
            else_branch: Box::new(replaced(*else_branch, env)),
        },
        Term::Let { bindings, body } => Term::Let {
            bindings: replaced_bindings(bindings, env),
            body: Box::new(replaced(*body, env)),
        },
        Term::Cons(h, tl) => Term::Cons(Box::new(replaced(*h, env)), Box::new(replaced(*tl, env))),
        Term::Car(v) => Term::Car(Box::new(replaced(*v, env))),
        Term::Cdr(v) => Term::Cdr(Box::new(replaced(*v, env))),
        Term::Null(v) => Term::Null(Box::new(replaced(*v, env))),
        _ => t,
    }
}

pub open spec fn replaced_all(s: Seq<Term>, env: Env) -> Seq<Term>
    decreases s,
{
    if s.len() == 0 {
        s
    } else {
        replaced_all(s.drop_last(), env).push(replaced(s.last(), env))
    }
}

pub open spec fn replaced_bindings(s: Seq<(Seq<char>, Term)>, env: Env) -> Seq<(Seq<char>, Term)>
    decreases s,
{
    if s.len() == 0 {
        s
    } else {
        replaced_bindings(s.drop_last(), env).push((s.last().0, replaced(s.last().1, env)))
    }
}

fn replace_all(args: &Vec<Expr>, values: &Vec<(String, Expr)>) -> (r: Vec<Expr>)
    ensures
        terms_of(r@) == replaced_all(terms_of(args@), binding_terms_of(values@)),
    decreases args, 0nat,
{
    let mut out: Vec<Expr> = Vec::new();
    let mut i: usize = 0;
    while i < args.len()
        invariant
            i <= args.len(),
            terms_of(out@) == replaced_all(terms_of(args@.take(i as int)), binding_terms_of(values@)),
        decreases args.len() - i,
    {
        proof {
            assert(decreases_to!(args => args@[i as int]));
            assert(args@.take(i + 1).drop_last() =~= args@.take(i as int));
            let pre = terms_of(args@.take(i as int));
            assert(pre.push(term_of(args@[i as int])).drop_last() =~= pre);
        }
        let x = replace_vars(&args[i], values);
        proof { assert(out@.push(x).drop_last() =~= out@); }
        out.push(x);
        i = i + 1;
    }
    proof { assert(args@.take(args.len() as int) =~= args@); }
    out
}

fn replace_bindings(bindings: &Vec<(String, Expr)>, values: &Vec<(String, Expr)>) -> (r: Vec<(String, Expr)>)
    ensures
        binding_terms_of(r@) == replaced_bindings(binding_terms_of(bindings@), binding_terms_of(values@)),
    decreases bindings, 0nat,
{
    let mut out: Vec<(String, Expr)> = Vec::new();
    let mut i: usize = 0;
    while i < bindings.len()
        invariant
            i <= bindings.len(),
            binding_terms_of(out@) == replaced_bindings(
                binding_terms_of(bindings@.take(i as int)),
                binding_terms_of(values@),
            ),
        decreases bindings.len() - i,
    {
        proof {
            assert(decreases_to!(bindings => bindings@[i as int].1));
            assert(bindings@.take(i + 1).drop_last() =~= bindings@.take(i as int));
            let pre = binding_terms_of(bindings@.take(i as int));
            let b = bindings@[i as int];
            assert(pre.push((b.0@, term_of(b.1))).drop_last() =~= pre);
        }
        let pair = (bindings[i].0.clone(), replace_vars(&bindings[i].1, values));
        proof { assert(out@.push(pair).drop_last() =~= out@); }
        out.push(pair);
        i = i + 1;
    }
    proof { assert(bindings@.take(bindings.len() as int) =~= bindings@); }
    out
}

/// `e` with every variable bound in `values` replaced by a copy of its value.
pub fn replace_vars(e: &Expr, values: &Vec<(String, Expr)>) -> (r: Expr)
    ensures
        r@ == replaced(e@, binding_terms_of(values@)),
    decreases e,
{
    match e {
        Expr::Var(name) => match lookup_env(values, name) {
            Some(v) => v,
            None => Expr::Var(name.clone()),
        },
        Expr::Primitive { op, args } => Expr::Primitive { op: *op, args: replace_all(args, values) },
        Expr::Call { callee, args } => Expr::Call { callee: callee.clone(), args: replace_all(args, values) },
        Expr::If { condition, then_branch, else_branch } => Expr::If {
            condition: Box::new(replace_vars(condition, values)),
            then_branch: Box::new(replace_vars(then_branch, values)),
            else_branch: Box::new(replace_vars(else_branch, values)),
        },
        Expr::Let { bindings, body } => Expr::Let {
            bindings: replace_bindings(bindings, values),
            body: Box::new(replace_vars(body, values)),
        },
        Expr::Cons(h, t) => Expr::Cons(Box::new(replace_vars(h, values)), Box::new(replace_vars(t, values))),
        Expr::Car(v) => Expr::Car(Box::new(replace_vars(v, values))),
        Expr::Cdr(v) => Expr::Cdr(Box::new(replace_vars(v, values))),
        Expr::Null(v) => Expr::Null(Box::new(replace_vars(v, values))),
        other => copy_expr(other),
    }
}

/// Literal propagation of `t` with the substitution `env` still pending on
/// it. Each `let` moves its literal-valued bindings into the substitution:
/// a value is propagated first and then sees the literals bound before it,
/// and the body sees all of them. The substitution that was already pending
/// takes precedence, because it was applied to the whole `let` first.
pub open spec fn propagated(t: Term, env: Env) -> Term
    decreases t,
{
    match t {
        Term::Var(n) => match lookup(env, n) {
            Some(v) => v,
            None => t,
        },
        Term::Let { bindings, body } => {
            let (lits, kept) = propagated_bindings(bindings, env);
            let b = propagated(*body, lits + env);
            if kept.len() == 0 {
                b
            } else {
                Term::Let { bindings: kept, body: Box::new(b) }
            }
        },
        Term::Primitive { op, args } => Term::Primitive { op, args: propagated_all(args, env) },
        Term::Call { callee, args } => Term::Call { callee, args: propagated_all(args, env) },
        Term::If { condition, then_branch, else_branch } => Term::If {
            condition: Box::new(propagated(*condition, env)),
            then_branch: Box::new(propagated(*then_branch, env)),
            else_branch: Box::new(propagated(*else_branch, env)),
        },
        Term::Cons(h, tl) => Term::Cons(Box::new(propagated(*h, env)), Box::new(propagated(*tl, env))),
        Term::Car(v) => Term::Car(Box::new(propagated(*v, env))),
        Term::Cdr(v) => Term::Cdr(Box::new(propagated(*v, env))),
        Term::Null(v) => Term::Null(Box::new(propagated(*v, env))),
        _ => t,
    }
}

pub open spec fn propagated_all(s: Seq<Term>, env: Env) -> Seq<Term>
    decreases s,
{
    if s.len() == 0 {
        s
    } else {
        propagated_all(s.drop_last(), env).push(propagated(s.last(), env))
    }
}

/// The literal bindings and the kept bindings of one `let`, in order.
pub open spec fn propagated_bindings(s: Seq<(Seq<char>, Term)>, env: Env) -> (Env, Seq<(Seq<char>, Term)>)
    decreases s,
{
    if s.len() == 0 {
        (Seq::empty(), Seq::empty())
    } else {
        let (lits, kept) = propagated_bindings(s.drop_last(), env);
        let v = replaced(propagated(s.last().1, env), lits);
        if is_scalar_literal(v) {
            (lits.push((s.last().0, v)), kept)
        } else {
            (lits, kept.push((s.last().0, v)))
        }
    }
}

/// The bindings of `a` followed by those of `b`.
fn concat_env(a: &Vec<(String, Expr)>, b: &Vec<(String, Expr)>) -> (r: Vec<(String, Expr)>)
    ensures
        binding_terms_of(r@) == binding_terms_of(a@) + binding_terms_of(b@),
{
    let mut out = copy_bindings(a);
    let mut i: usize = 0;
    proof { assert(binding_terms_of(b@.take(0)) =~= Seq::empty()); }
    while i < b.len()
        invariant
            i <= b.len(),
            binding_terms_of(out@) == binding_terms_of(a@) + binding_terms_of(b@.take(i as int)),
        decreases b.len() - i,
    {
        let pair = (b[i].0.clone(), copy_expr(&b[i].1));
        proof {
            assert(b@.take(i + 1).drop_last() =~= b@.take(i as int));
            assert(out@.push(pair).drop_last() =~= out@);
            let pre = binding_terms_of(b@.take(i as int));
            let x = (b@[i as int].0@, term_of(b@[i as int].1));
            assert(binding_terms_of(a@) + pre.push(x) =~= (binding_terms_of(a@) + pre).push(x));
        }
        out.push(pair);
        i = i + 1;
    }
    proof { assert(b@.take(b.len() as int) =~= b@); }
    out
}

fn propagate_all(args: &Vec<Expr>, env: &Vec<(String, Expr)>) -> (r: Vec<Expr>)
    ensures
        terms_of(r@) == propagated_all(terms_of(args@), binding_terms_of(env@)),
    decreases args, 0nat,
{
    let mut out: Vec<Expr> = Vec::new();
    let mut i: usize = 0;
    while i < args.len()
        invariant
            i <= args.len(),
            terms_of(out@) == propagated_all(terms_of(args@.take(i as int)), binding_terms_of(env@)),
        decreases args.len() - i,
    {
        proof {
            assert(decreases_to!(args => args@[i as int]));
            assert(args@.take(i + 1).drop_last() =~= args@.take(i as int));
            let pre = terms_of(args@.take(i as int));
            assert(pre.push(term_of(args@[i as int])).drop_last() =~= pre);
        }
        let x = propagate(&args[i], env);
        proof { assert(out@.push(x).drop_last() =~= out@); }
        out.push(x);
        i = i + 1;
    }
    proof { assert(args@.take(args.len() as int) =~= args@); }
    out
}

/// Literal propagation with the substitution `env` pending.
#[verifier::loop_isolation(false)]
pub fn propagate(e: &Expr, env: &Vec<(String, Expr)>) -> (r: Expr)
    ensures
        r@ == propagated(e@, binding_terms_of(env@)),
    decreases e,
{
    match e {
        Expr::Var(name) => match lookup_env(env, name) {
            Some(v) => v,
            None => Expr::Var(name.clone()),
        },
        Expr::Let { bindings, body } => {
            let mut lits: Vec<(String, Expr)> = Vec::new();
            let mut kept: Vec<(String, Expr)> = Vec::new();
            let mut i: usize = 0;
            while i < bindings.len()
                invariant
                    i <= bindings.len(),
                    (binding_terms_of(lits@), binding_terms_of(kept@)) == propagated_bindings(
                        binding_terms_of(bindings@.take(i as int)),
                        binding_terms_of(env@),
                    ),
                decreases bindings.len() - i,
            {
                proof {
                    assert(decreases_to!(e => bindings@[i as int].1));
                    assert(bindings@.take(i + 1).drop_last() =~= bindings@.take(i as int));
                    let pre = binding_terms_of(bindings@.take(i as int));
                    let b = bindings@[i as int];
                    assert(pre.push((b.0@, term_of(b.1))).drop_last() =~= pre);
                }
                let inner = propagate(&bindings[i].1, env);
                let v = replace_vars(&inner, &lits);
                let pair = (bindings[i].0.clone(), v);
                if is_literal(&pair.1) {
                    proof { assert(lits@.push(pair).drop_last() =~= lits@); }
                    lits.push(pair);
                } else {
                    proof { assert(kept@.push(pair).drop_last() =~= kept@); }
                    kept.push(pair);
                }
                i = i + 1;
            }
            proof { assert(bindings@.take(bindings.len() as int) =~= bindings@); }
            let inner_env = concat_env(&lits, env);
            let b = propagate(body, &inner_env);
            if kept.len() == 0 {
                b
            } else {
                Expr::Let { bindings: kept, body: Box::new(b) }
            }
        },
        Expr::Primitive { op, args } => Expr::Primitive { op: *op, args: propagate_all(args, env) },
        Expr::Call { callee, args } => Expr::Call { callee: callee.clone(), args: propagate_all(args, env) },
        Expr::If { condition, then_branch, else_branch } => Expr::If {
            condition: Box::new(propagate(condition, env)),
            then_branch: Box::new(propagate(then_branch, env)),
            else_branch: Box::new(propagate(else_branch, env)),
        },
        Expr::Cons(h, t) => Expr::Cons(Box::new(propagate(h, env)), Box::new(propagate(t, env))),
        Expr::Car(v) => Expr::Car(Box::new(propagate(v, env))),
        Expr::Cdr(v) => Expr::Cdr(Box::new(propagate(v, env))),
        Expr::Null(v) => Expr::Null(Box::new(propagate(v, env))),
        other => copy_expr(other),
    }
}

/// Replace literal-valued `let` bindings with the literal at each use site.
///
/// The inliner leaves constant arguments as bindings, so a condition such as
/// `if mode` would stay a variable read and never fold. Literals are
/// immediates in HVM, so copying one to each use site is free, and removing
/// the binding also removes a copy.
pub fn substitute_literal_bindings(e: &Expr) -> (r: Expr)
    ensures
        r@ == propagated(e@, Seq::empty()),
{
    let env: Vec<(String, Expr)> = Vec::new();
    proof { assert(binding_terms_of(env@) =~= Seq::empty()); }
    propagate(e, &env)
}


// ---------------------------------------------------------------------------
// Dropping unused bindings
// ---------------------------------------------------------------------------

/// Every name `t` mentions as a variable or a callee, in the order met.
pub open spec fn uses(t: Term) -> Seq<Seq<char>>
    decreases t,
{
    match t {
        Term::Var(n) => seq![n],
        Term::Call { callee, args } => seq![callee] + uses_all(args),
        Term::Primitive { args, .. } => uses_all(args),
        Term::If { condition, then_branch, else_branch } => uses(*condition) + uses(*then_branch) + uses(
            *else_branch,
        ),
        Term::Let { bindings, body } => uses_bindings(bindings) + uses(*body),
        Term::Cons(h, tl) => uses(*h) + uses(*tl),
        Term::Car(v) | Term::Cdr(v) | Term::Null(v) => uses(*v),
        Term::Number(_) | Term::Bool(_) | Term::Nil => Seq::empty(),
    }
}

pub open spec fn uses_all(s: Seq<Term>) -> Seq<Seq<char>>
    decreases s,
{
    if s.len() == 0 {
        Seq::empty()
    } else {
        uses_all(s.drop_last()) + uses(s.last())
    }
}

pub open spec fn uses_bindings(s: Seq<(Seq<char>, Term)>) -> Seq<Seq<char>>
    decreases s,
{
    if s.len() == 0 {
        Seq::empty()
    } else {
        uses_bindings(s.drop_last()) + uses(s.last().1)
    }
}

/// Appends every name `e` mentions as a variable or a callee.
#[verifier::loop_isolation(false)]
pub fn collect_uses(e: &Expr, names: &mut Vec<String>)
    ensures
        names_of(final(names)@) == names_of(old(names)@) + uses(e@),
    decreases e,
{
    let ghost start = names_of(names@);
    match e {
        Expr::Var(name) => {
            names.push(name.clone());
            proof { assert(names_of(names@) =~= start + uses(e@)); }
        },
        Expr::Call { callee, args } => {
            names.push(callee.clone());
            proof { assert(names_of(names@) =~= start + seq![callee@]); }
            let mut i: usize = 0;
            while i < args.len()
                invariant
                    i <= args.len(),
                    names_of(names@) == start + seq![callee@] + uses_all(terms_of(args@.take(i as int))),
                decreases args.len() - i,
            {
                proof {
                    assert(decreases_to!(e => args@[i as int]));
                    assert(args@.take(i + 1).drop_last() =~= args@.take(i as int));
                    let pre = terms_of(args@.take(i as int));
                    assert(pre.push(term_of(args@[i as int])).drop_last() =~= pre);
                }
                collect_uses(&args[i], names);
                proof {
                    let pre = uses_all(terms_of(args@.take(i as int)));
                    let x = uses(term_of(args@[i as int]));
                    assert(start + seq![callee@] + pre + x =~= start + seq![callee@] + (pre + x));
                }
                i = i + 1;
            }
            proof {
                assert(args@.take(args.len() as int) =~= args@);
                assert(start + seq![callee@] + uses_all(terms_of(args@)) =~= start + uses(e@));
            }
        },
        Expr::Primitive { args, .. } => {
            proof { assert(start =~= start + uses_all(terms_of(args@.take(0)))); }
            let mut i: usize = 0;
            while i < args.len()
                invariant
                    i <= args.len(),
                    names_of(names@) == start + uses_all(terms_of(args@.take(i as int))),
                decreases args.len() - i,
            {
                proof {
                    assert(decreases_to!(e => args@[i as int]));
                    assert(args@.take(i + 1).drop_last() =~= args@.take(i as int));
                    let pre = terms_of(args@.take(i as int));
                    assert(pre.push(term_of(args@[i as int])).drop_last() =~= pre);
                }
                collect_uses(&args[i], names);
                proof {
                    let pre = uses_all(terms_of(args@.take(i as int)));
                    let x = uses(term_of(args@[i as int]));
                    assert(start + pre + x =~= start + (pre + x));
                }
                i = i + 1;
            }
            proof { assert(args@.take(args.len() as int) =~= args@); }
        },
        Expr::If { condition, then_branch, else_branch } => {
            collect_uses(condition, names);
            collect_uses(then_branch, names);
            collect_uses(else_branch, names);
            proof {
                assert(names_of(names@) =~= start + uses(e@));
            }
        },
        Expr::Let { bindings, body } => {
            proof { assert(start =~= start + uses_bindings(binding_terms_of(bindings@.take(0)))); }
            let mut i: usize = 0;
            while i < bindings.len()
                invariant
                    i <= bindings.len(),
                    names_of(names@) == start + uses_bindings(binding_terms_of(bindings@.take(i as int))),
                decreases bindings.len() - i,
            {
                proof {
                    assert(decreases_to!(e => bindings@[i as int].1));
                    assert(bindings@.take(i + 1).drop_last() =~= bindings@.take(i as int));
                    let pre = binding_terms_of(bindings@.take(i as int));
                    let b = bindings@[i as int];
                    assert(pre.push((b.0@, term_of(b.1))).drop_last() =~= pre);
                }
                collect_uses(&bindings[i].1, names);
                proof {
                    let pre = uses_bindings(binding_terms_of(bindings@.take(i as int)));
                    let x = uses(term_of(bindings@[i as int].1));
                    assert(start + pre + x =~= start + (pre + x));
                }
                i = i + 1;
            }
            proof { assert(bindings@.take(bindings.len() as int) =~= bindings@); }
            collect_uses(body, names);
            proof {
                assert(names_of(names@) =~= start + uses(e@));
            }
        },
        Expr::Cons(h, t) => {
            collect_uses(h, names);
            collect_uses(t, names);
            proof {
                assert(names_of(names@) =~= start + uses(e@));
            }
        },
        Expr::Car(v) | Expr::Cdr(v) | Expr::Null(v) => {
            collect_uses(v, names);
        },
        Expr::Number(_) | Expr::Bool(_) | Expr::Nil => {
            proof { assert(names_of(names@) =~= start + uses(e@)); }
        },
    }
}


/// The bindings worth keeping given the names in use: those used, and those
/// whose value is not safe to drop.
pub open spec fn keep_needed(s: Seq<(Seq<char>, Term)>, used: Seq<Seq<char>>) -> Seq<(Seq<char>, Term)>
    decreases s.len(),
{
    if s.len() == 0 {
        s
    } else if used.contains(s.last().0) || !droppable_term(s.last().1) {
        keep_needed(s.drop_last(), used).push(s.last())
    } else {
        keep_needed(s.drop_last(), used)
    }
}

pub proof fn lemma_keep_needed_len(s: Seq<(Seq<char>, Term)>, used: Seq<Seq<char>>)
    ensures
        keep_needed(s, used).len() <= s.len(),
    decreases s.len(),
{
    if s.len() > 0 {
        lemma_keep_needed_len(s.drop_last(), used);
    }
}

/// The names that a `let`'s body and the values of its bindings use.
pub open spec fn used_by(kept: Seq<(Seq<char>, Term)>, body: Term) -> Seq<Seq<char>> {
    uses(body) + uses_bindings(kept)
}

/// Drop unneeded bindings until none is left to drop: a binding that only an
/// unneeded binding used becomes unneeded in turn.
pub open spec fn prune(kept: Seq<(Seq<char>, Term)>, body: Term) -> Seq<(Seq<char>, Term)>
    decreases kept.len(),
{
    let next = keep_needed(kept, used_by(kept, body));
    if next.len() < kept.len() {
        prune(next, body)
    } else {
        kept
    }
}

/// `t` with the `let` bindings that nothing references any more removed,
/// unless their value is not safe to drop.
pub open spec fn dropped(t: Term) -> Term
    decreases t,
{
    match t {
        Term::Let { bindings, body } => {
            let b = dropped(*body);
            let kept = prune(dropped_bindings(bindings), b);
            if kept.len() == 0 {
                b
            } else {
                Term::Let { bindings: kept, body: Box::new(b) }
            }
        },
        Term::Primitive { op, args } => Term::Primitive { op, args: dropped_all(args) },
        Term::Call { callee, args } => Term::Call { callee, args: dropped_all(args) },
        Term::If { condition, then_branch, else_branch } => Term::If {
            condition: Box::new(dropped(*condition)),
            then_branch: Box::new(dropped(*then_branch)),
            else_branch: Box::new(dropped(*else_branch)),
        },
        Term::Cons(h, tl) => Term::Cons(Box::new(dropped(*h)), Box::new(dropped(*tl))),
        Term::Car(v) => Term::Car(Box::new(dropped(*v))),
        Term::Cdr(v) => Term::Cdr(Box::new(dropped(*v))),
        Term::Null(v) => Term::Null(Box::new(dropped(*v))),
        _ => t,
    }
}

pub open spec fn dropped_all(s: Seq<Term>) -> Seq<Term>
    decreases s,
{
    if s.len() == 0 {
        s
    } else {
        dropped_all(s.drop_last()).push(dropped(s.last()))
    }
}

pub open spec fn dropped_bindings(s: Seq<(Seq<char>, Term)>) -> Seq<(Seq<char>, Term)>
    decreases s,
{
    if s.len() == 0 {
        s
    } else {
        dropped_bindings(s.drop_last()).push((s.last().0, dropped(s.last().1)))
    }
}

/// Whether `x` is among `names`.
pub fn mentions(names: &Vec<String>, x: &String) -> (r: bool)
    ensures
        r == names_of(names@).contains(x@),
{
    let mut i: usize = 0;
    while i < names.len()
        invariant
            i <= names.len(),
            forall|j: int| 0 <= j < i ==> names@[j]@ != x@,
        decreases names.len() - i,
    {
        if crate::text::same_text(&names[i], x) {
            proof { assert(names_of(names@)[i as int] == x@); }
            return true;
        }
        i = i + 1;
    }
    proof {
        if names_of(names@).contains(x@) {
            let j = choose|j: int| 0 <= j < names_of(names@).len() && names_of(names@)[j] == x@;
            assert(names@[j]@ == x@);
        }
    }
    false
}

/// The bindings of `kept` worth keeping given the names in `used`.
fn keep_needed_bindings(kept: &Vec<(String, Expr)>, used: &Vec<String>) -> (r: Vec<(String, Expr)>)
    ensures
        binding_terms_of(r@) == keep_needed(binding_terms_of(kept@), names_of(used@)),
{
    let mut out: Vec<(String, Expr)> = Vec::new();
    let mut i: usize = 0;
    while i < kept.len()
        invariant
            i <= kept.len(),
            binding_terms_of(out@) == keep_needed(binding_terms_of(kept@.take(i as int)), names_of(used@)),
        decreases kept.len() - i,
    {
        proof {
            assert(kept@.take(i + 1).drop_last() =~= kept@.take(i as int));
            let pre = binding_terms_of(kept@.take(i as int));
            let b = kept@[i as int];
            assert(pre.push((b.0@, term_of(b.1))).drop_last() =~= pre);
        }
        if mentions(used, &kept[i].0) || !droppable(&kept[i].1) {
            let pair = (kept[i].0.clone(), copy_expr(&kept[i].1));
            proof { assert(out@.push(pair).drop_last() =~= out@); }
            out.push(pair);
        }
        i = i + 1;
    }
    proof { assert(kept@.take(kept.len() as int) =~= kept@); }
    out
}

fn drop_unused_all(args: &Vec<Expr>) -> (r: Vec<Expr>)
    ensures
        terms_of(r@) == dropped_all(terms_of(args@)),
    decreases args, 0nat,
{
    let mut out: Vec<Expr> = Vec::new();
    let mut i: usize = 0;
    while i < args.len()
        invariant
            i <= args.len(),
            terms_of(out@) == dropped_all(terms_of(args@.take(i as int))),
        decreases args.len() - i,
    {
        proof {
            assert(decreases_to!(args => args@[i as int]));
            assert(args@.take(i + 1).drop_last() =~= args@.take(i as int));
            let pre = terms_of(args@.take(i as int));
            assert(pre.push(term_of(args@[i as int])).drop_last() =~= pre);
        }
        let x = drop_unused(&args[i]);
        proof { assert(out@.push(x).drop_last() =~= out@); }
        out.push(x);
        i = i + 1;
    }
    proof { assert(args@.take(args.len() as int) =~= args@); }
    out
}

fn drop_unused_values(bindings: &Vec<(String, Expr)>) -> (r: Vec<(String, Expr)>)
    ensures
        binding_terms_of(r@) == dropped_bindings(binding_terms_of(bindings@)),
    decreases bindings, 0nat,
{
    let mut out: Vec<(String, Expr)> = Vec::new();
    let mut i: usize = 0;
    while i < bindings.len()
        invariant
            i <= bindings.len(),
            binding_terms_of(out@) == dropped_bindings(binding_terms_of(bindings@.take(i as int))),
        decreases bindings.len() - i,
    {
        proof {
            assert(decreases_to!(bindings => bindings@[i as int].1));
            assert(bindings@.take(i + 1).drop_last() =~= bindings@.take(i as int));
            let pre = binding_terms_of(bindings@.take(i as int));
            let b = bindings@[i as int];
            assert(pre.push((b.0@, term_of(b.1))).drop_last() =~= pre);
        }
        let pair = (bindings[i].0.clone(), drop_unused(&bindings[i].1));
        proof { assert(out@.push(pair).drop_last() =~= out@); }
        out.push(pair);
        i = i + 1;
    }
    proof { assert(bindings@.take(bindings.len() as int) =~= bindings@); }
    out
}

/// Every name that `body` and the values of `kept` use.
fn names_used(kept: &Vec<(String, Expr)>, body: &Expr) -> (r: Vec<String>)
    ensures
        names_of(r@) == used_by(binding_terms_of(kept@), body@),
{
    let mut used: Vec<String> = Vec::new();
    proof { assert(names_of(used@) =~= Seq::empty()); }
    collect_uses(body, &mut used);
    proof { assert(names_of(used@) =~= uses(body@) + uses_bindings(binding_terms_of(kept@.take(0)))); }
    let mut i: usize = 0;
    while i < kept.len()
        invariant
            i <= kept.len(),
            names_of(used@) == uses(body@) + uses_bindings(binding_terms_of(kept@.take(i as int))),
        decreases kept.len() - i,
    {
        proof {
            assert(kept@.take(i + 1).drop_last() =~= kept@.take(i as int));
            let pre = binding_terms_of(kept@.take(i as int));
            let b = kept@[i as int];
            assert(pre.push((b.0@, term_of(b.1))).drop_last() =~= pre);
        }
        collect_uses(&kept[i].1, &mut used);
        proof {
            let pre = uses_bindings(binding_terms_of(kept@.take(i as int)));
            let x = uses(term_of(kept@[i as int].1));
            assert(uses(body@) + pre + x =~= uses(body@) + (pre + x));
        }
        i = i + 1;
    }
    proof { assert(kept@.take(kept.len() as int) =~= kept@); }
    used
}

/// Drop the `let` bindings that nothing references any more.
///
/// Folding a branch can strand the bindings that only fed the dead arm;
/// leaving them would keep computing work the program no longer needs.
/// Calls and divisions are kept even when unused: removing one could change
/// termination or delete an error the program performed.
pub fn drop_unused(e: &Expr) -> (r: Expr)
    ensures
        r@ == dropped(e@),
    decreases e,
{
    match e {
        Expr::Let { bindings, body } => {
            let b = drop_unused(body);
            let mut kept = drop_unused_values(bindings);
            let ghost first = binding_terms_of(kept@);
            let mut done = false;
            while !done
                invariant
                    prune(first, b@) == if done {
                        binding_terms_of(kept@)
                    } else {
                        prune(binding_terms_of(kept@), b@)
                    },
                decreases kept.len() + if done {
                    0int
                } else {
                    1int
                },
            {
                let used = names_used(&kept, &b);
                let next = keep_needed_bindings(&kept, &used);
                proof {
                    lemma_keep_needed_len(binding_terms_of(kept@), names_of(used@));
                    lemma_binding_terms_of(kept@);
                    lemma_binding_terms_of(next@);
                }
                if next.len() == kept.len() {
                    done = true;
                } else {
                    kept = next;
                }
            }
            if kept.len() == 0 {
                proof { lemma_binding_terms_of(kept@); }
                b
            } else {
                proof { lemma_binding_terms_of(kept@); }
                Expr::Let { bindings: kept, body: Box::new(b) }
            }
        },
        Expr::Primitive { op, args } => Expr::Primitive { op: *op, args: drop_unused_all(args) },
        Expr::Call { callee, args } => Expr::Call { callee: callee.clone(), args: drop_unused_all(args) },
        Expr::If { condition, then_branch, else_branch } => Expr::If {
            condition: Box::new(drop_unused(condition)),
            then_branch: Box::new(drop_unused(then_branch)),
            else_branch: Box::new(drop_unused(else_branch)),
        },
        Expr::Cons(h, t) => Expr::Cons(Box::new(drop_unused(h)), Box::new(drop_unused(t))),
        Expr::Car(v) => Expr::Car(Box::new(drop_unused(v))),
        Expr::Cdr(v) => Expr::Cdr(Box::new(drop_unused(v))),
        Expr::Null(v) => Expr::Null(Box::new(drop_unused(v))),
        other => copy_expr(other),
    }
}

/// Drop the `let` bindings that nothing references any more, keeping calls
/// and divisions.
pub fn drop_unused_bindings(expr: Expr) -> (r: Expr)
    ensures
        r@ == dropped(expr@),
{
    drop_unused(&expr)
}


proof fn lemma_keep_needed_keeps(s: Seq<(Seq<char>, Term)>, used: Seq<Seq<char>>, x: (Seq<char>, Term))
    requires
        s.contains(x),
        !droppable_term(x.1),
    ensures
        keep_needed(s, used).contains(x),
    decreases s.len(),
{
    if s.last() == x {
        assert(keep_needed(s, used).last() == x);
    } else {
        let i = choose|i: int| 0 <= i < s.len() && s[i] == x;
        assert(s.drop_last()[i] == x);
        lemma_keep_needed_keeps(s.drop_last(), used, x);
        let k = keep_needed(s.drop_last(), used);
        let j = choose|j: int| 0 <= j < k.len() && k[j] == x;
        if used.contains(s.last().0) || !droppable_term(s.last().1) {
            assert(k.push(s.last())[j] == x);
        }
    }
}

proof fn lemma_prune_keeps(kept: Seq<(Seq<char>, Term)>, body: Term, x: (Seq<char>, Term))
    requires
        kept.contains(x),
        !droppable_term(x.1),
    ensures
        prune(kept, body).contains(x),
    decreases kept.len(),
{
    let next = keep_needed(kept, used_by(kept, body));
    lemma_keep_needed_keeps(kept, used_by(kept, body), x);
    if next.len() < kept.len() {
        lemma_prune_keeps(next, body, x);
    }
}

/// Dropping unused bindings never drops one whose value could call or
/// divide: every such binding of a `let` survives, so no error and no
/// non-termination is removed from the program.
pub proof fn lemma_undroppable_bindings_survive(bindings: Seq<(Seq<char>, Term)>, body: Term, x: (Seq<char>, Term))
    requires
        dropped_bindings(bindings).contains(x),
        !droppable_term(x.1),
    ensures
        dropped(Term::Let { bindings, body: Box::new(body) }) matches Term::Let { bindings: kept, .. } && kept.contains(x),
{
    let b = dropped(body);
    lemma_prune_keeps(dropped_bindings(bindings), b, x);
    let kept = prune(dropped_bindings(bindings), b);
    assert(kept.len() > 0);
}

// ---------------------------------------------------------------------------
// Settling
// ---------------------------------------------------------------------------

fn exprs_eq(a: &Vec<Expr>, b: &Vec<Expr>) -> (r: bool)
    ensures
        r == (terms_of(a@) == terms_of(b@)),
    decreases a, 0nat,
{
    proof {
        lemma_terms_of(a@);
        lemma_terms_of(b@);
    }
    if a.len() != b.len() {
        return false;
    }
    let mut i: usize = 0;
    while i < a.len()
        invariant
            i <= a.len(),
            a.len() == b.len(),
            terms_of(a@).len() == a.len(),
            terms_of(b@).len() == b.len(),
            forall|j: int| 0 <= j < a.len() ==> #[trigger] terms_of(a@)[j] == term_of(a@[j]),
            forall|j: int| 0 <= j < b.len() ==> #[trigger] terms_of(b@)[j] == term_of(b@[j]),
            forall|j: int| 0 <= j < i ==> terms_of(a@)[j] == terms_of(b@)[j],
        decreases a.len() - i,
    {
        proof { assert(decreases_to!(a => a@[i as int])); }
        if !expr_eq(&a[i], &b[i]) {
            proof { assert(terms_of(a@)[i as int] != terms_of(b@)[i as int]); }
            return false;
        }
        i = i + 1;
    }
    proof { assert(terms_of(a@) =~= terms_of(b@)); }
    true
}

fn bindings_eq(a: &Vec<(String, Expr)>, b: &Vec<(String, Expr)>) -> (r: bool)
    ensures
        r == (binding_terms_of(a@) == binding_terms_of(b@)),
    decreases a, 0nat,
{
    proof {
        lemma_binding_terms_of(a@);
        lemma_binding_terms_of(b@);
    }
    if a.len() != b.len() {
        return false;
    }
    let mut i: usize = 0;
    while i < a.len()
        invariant
            i <= a.len(),
            a.len() == b.len(),
            binding_terms_of(a@).len() == a.len(),
            binding_terms_of(b@).len() == b.len(),
            forall|j: int| 0 <= j < a.len() ==> #[trigger] binding_terms_of(a@)[j] == (a@[j].0@, term_of(a@[j].1)),
            forall|j: int| 0 <= j < b.len() ==> #[trigger] binding_terms_of(b@)[j] == (b@[j].0@, term_of(b@[j].1)),
            forall|j: int| 0 <= j < i ==> binding_terms_of(a@)[j] == binding_terms_of(b@)[j],
        decreases a.len() - i,
    {
        proof { assert(decreases_to!(a => a@[i as int].1)); }
        if !crate::text::same_text(&a[i].0, &b[i].0) || !expr_eq(&a[i].1, &b[i].1) {
            proof { assert(binding_terms_of(a@)[i as int] != binding_terms_of(b@)[i as int]); }
            return false;
        }
        i = i + 1;
    }
    proof { assert(binding_terms_of(a@) =~= binding_terms_of(b@)); }
    true
}

/// Whether `a` and `b` are the same tree.
pub fn expr_eq(a: &Expr, b: &Expr) -> (r: bool)
    ensures
        r == (a@ == b@),
    decreases a,
{
    match (a, b) {
        (Expr::Number(x), Expr::Number(y)) => *x == *y,
        (Expr::Bool(x), Expr::Bool(y)) => *x == *y,
        (Expr::Var(x), Expr::Var(y)) => crate::text::same_text(x, y),
        (Expr::Nil, Expr::Nil) => true,
        (Expr::Call { callee: c, args: x }, Expr::Call { callee: d, args: y }) => crate::text::same_text(c, d)
            && exprs_eq(x, y),
        (Expr::Primitive { op: o, args: x }, Expr::Primitive { op: p, args: y }) => *o == *p && exprs_eq(x, y),
        (
            Expr::If { condition: c1, then_branch: a1, else_branch: b1 },
            Expr::If { condition: c2, then_branch: a2, else_branch: b2 },
        ) => expr_eq(c1, c2) && expr_eq(a1, a2) && expr_eq(b1, b2),
        (Expr::Let { bindings: x, body: p }, Expr::Let { bindings: y, body: q }) => bindings_eq(x, y) && expr_eq(p, q),
        (Expr::Cons(h1, t1), Expr::Cons(h2, t2)) => expr_eq(h1, h2) && expr_eq(t1, t2),
        (Expr::Car(x), Expr::Car(y)) => expr_eq(x, y),
        (Expr::Cdr(x), Expr::Cdr(y)) => expr_eq(x, y),
        (Expr::Null(x), Expr::Null(y)) => expr_eq(x, y),
        _ => false,
    }
}

/// One round of settling: literal propagation and dropping unused bindings
/// when `propagate` is set, then simplification.
pub open spec fn settle_step(t: Term, propagate: bool) -> Term {
    simplified(
        if propagate {
            dropped(propagated(t, Seq::empty()))
        } else {
            t
        },
    )
}

/// At most `rounds` rounds of settling, stopping early at a fixed point.
pub open spec fn settled(t: Term, propagate: bool, rounds: nat) -> Term
    decreases rounds,
{
    if rounds == 0 {
        t
    } else {
        let next = settle_step(t, propagate);
        if next == t {
            next
        } else {
            settled(next, propagate, (rounds - 1) as nat)
        }
    }
}

/// Run simplification and literal propagation to a bounded fixed point.
///
/// The two interact: folding exposes new literal bindings, and propagation
/// exposes new foldable conditions.
pub fn settle(expr: Expr, propagate: bool) -> (r: Expr)
    ensures
        r@ == settled(expr@, propagate, 4),
{
    let ghost start = expr@;
    let mut current = expr;
    let mut rounds: usize = 0;
    let mut done = false;
    while !done && rounds < 4
        invariant
            rounds <= 4,
            settled(start, propagate, 4) == if done {
                current@
            } else {
                settled(current@, propagate, (4 - rounds) as nat)
            },
        decreases 4 - rounds,
    {
        let before = copy_expr(&current);
        let stepped = if propagate {
            let p = substitute_literal_bindings(&current);
            drop_unused(&p)
        } else {
            current
        };
        let next = simplify(&stepped);
        done = expr_eq(&next, &before);
        current = next;
        rounds = rounds + 1;
    }
    current
}


// ---------------------------------------------------------------------------
// Fresh names
// ---------------------------------------------------------------------------

/// The name the optimizer gives its `n`th local.
pub open spec fn opt_name(n: nat) -> Seq<char> {
    "schemeOpt"@ + decimal(n)
}

/// Distinct counters give distinct names.
pub proof fn lemma_opt_name_injective(a: nat, b: nat)
    requires
        opt_name(a) == opt_name(b),
    ensures
        a == b,
{
    let p = "schemeOpt"@;
    assert(opt_name(a).skip(p.len() as int) =~= decimal(a));
    assert(opt_name(b).skip(p.len() as int) =~= decimal(b));
    lemma_decimal_digits(a);
    lemma_decimal_digits(b);
}

/// There are no more distinct local names in `used` than `used` has entries.
proof fn lemma_names_fit(used: Seq<Seq<char>>, n: nat)
    requires
        forall|k: nat| k < n ==> used.contains(#[trigger] opt_name(k)),
    ensures
        n <= used.len(),
{
    broadcast use vstd::seq_lib::seq_to_set_is_finite;

    let s = Seq::new(n, |k: int| opt_name(k as nat));
    assert forall|i: int, j: int| 0 <= i < s.len() && 0 <= j < s.len() && i != j implies s[i] != s[j] by {
        if s[i] == s[j] {
            lemma_opt_name_injective(i as nat, j as nat);
        }
    }
    assert(s.no_duplicates());
    s.unique_seq_to_set();
    assert forall|x: Seq<char>| s.to_set().contains(x) implies used.to_set().contains(x) by {
        let i = choose|i: int| 0 <= i < s.len() && s[i] == x;
        assert(used.contains(opt_name(i as nat)));
    }
    used.lemma_cardinality_of_set();
    vstd::set_lib::lemma_len_subset(s.to_set(), used.to_set());
}

/// The mathematical state of a name supply: the next counter to try and
/// every name already in use.
pub struct FreshState {
    pub next: nat,
    pub used: Set<Seq<char>>,
}

/// `m` is the first counter from `st.next` on whose name is not in use.
pub open spec fn free_from(st: FreshState, m: nat) -> bool {
    &&& m >= st.next
    &&& !st.used.contains(opt_name(m))
    &&& forall|k: nat| st.next <= k < m ==> st.used.contains(#[trigger] opt_name(k))
}

/// The next local name and the state after taking it.
pub open spec fn take_local(st: FreshState) -> (Seq<char>, FreshState) {
    let m = choose|m: nat| free_from(st, m);
    (opt_name(m), FreshState { next: m + 1, used: st.used.insert(opt_name(m)) })
}

proof fn lemma_free_unique(st: FreshState, a: nat, b: nat)
    requires
        free_from(st, a),
        free_from(st, b),
    ensures
        a == b,
{
    if a < b {
        assert(st.used.contains(opt_name(a)));
    }
    if b < a {
        assert(st.used.contains(opt_name(b)));
    }
}

/// A supply of local names that collide with nothing in the program.
pub struct Fresh {
    next: usize,
    used: Vec<String>,
}

impl View for Fresh {
    type V = FreshState;

    closed spec fn view(&self) -> FreshState {
        FreshState { next: self.next as nat, used: names_of(self.used@).to_set() }
    }
}

impl Fresh {
    /// Every name below the counter is already taken.
    pub closed spec fn wf(&self) -> bool {
        forall|k: nat| k < self.next ==> names_of(self.used@).contains(#[trigger] opt_name(k))
    }

    /// A fresh local: the first `schemeOpt{n}`, from the counter on, that is
    /// not in use yet. It is in use from now on.
    pub fn local(&mut self) -> (r: String)
        requires
            old(self).wf(),
        ensures
            final(self).wf(),
            (r@, final(self)@) == take_local(old(self)@),
            !old(self)@.used.contains(r@),
            final(self)@.used.contains(r@),
    {
        let ghost start = self@;
        let ghost first = self.next;
        proof { lemma_names_fit(names_of(self.used@), self.next as nat); }
        loop
            invariant
                self.wf(),
                self@.used == start.used,
                start == old(self)@,
                first <= self.next <= self.used.len(),
                forall|k: nat| first <= k < self.next ==> start.used.contains(#[trigger] opt_name(k)),
                start.next == first,
            decreases self.used.len() - self.next,
        {
            let candidate = opt_name_text(self.next);
            if !mentions(&self.used, &candidate) {
                let ghost before = self.used@;
                self.used.push(candidate.clone());
                let taken = self.used.len();
                proof {
                    assert(self.next < taken);
                    assert(names_of(self.used@) =~= names_of(before).push(candidate@));
                    names_of(before).lemma_push_to_set_commute(candidate@);
                    assert(names_of(self.used@).to_set() =~= start.used.insert(candidate@));
                    assert(free_from(start, self.next as nat));
                    let m = choose|m: nat| free_from(start, m);
                    lemma_free_unique(start, m, self.next as nat);
                    assert forall|k: nat| k < self.next + 1 implies names_of(self.used@).contains(
                        #[trigger] opt_name(k),
                    ) by {
                        if k < self.next {
                            let i = choose|i: int| 0 <= i < names_of(before).len() && names_of(before)[i] == opt_name(k);
                            assert(names_of(self.used@)[i] == opt_name(k));
                        } else {
                            assert(names_of(self.used@)[before.len() as int] == opt_name(k));
                        }
                    }
                }
                self.next = self.next + 1;
                proof {
                    let m = choose|m: nat| free_from(start, m);
                    assert(self@ == take_local(start).1);
                }
                return candidate;
            }
            proof {
                lemma_names_fit(names_of(self.used@), (self.next + 1) as nat);
            }
            self.next = self.next + 1;
        }
    }

    /// A name supply avoiding every name the program already uses.
    pub fn from_program(program: &Program) -> (r: Fresh)
        ensures
            r.wf(),
            r@ == (FreshState { next: 0, used: program_names(program@).to_set() }),
    {
        let mut used: Vec<String> = Vec::new();
        proof { assert(names_of(used@) =~= Seq::empty()); }
        let mut i: usize = 0;
        while i < program.definitions.len()
            invariant
                i <= program.definitions.len(),
                names_of(used@) == definitions_names(defs_of(program.definitions@.take(i as int))),
            decreases program.definitions.len() - i,
        {
            let d = &program.definitions[i];
            let ghost before = names_of(used@);
            used.push(d.name.clone());
            let mut j: usize = 0;
            proof { assert(names_of(used@) =~= before + seq![d.name@] + names_of(d.params@).take(0)); }
            while j < d.params.len()
                invariant
                    j <= d.params.len(),
                    d == &program.definitions[i as int],
                    names_of(used@) == before + seq![d.name@] + names_of(d.params@).take(j as int),
                decreases d.params.len() - j,
            {
                let ghost prev = used@;
                used.push(d.params[j].clone());
                proof {
                    assert(names_of(used@) =~= names_of(prev).push(d.params@[j as int]@));
                    assert(names_of(d.params@).take(j + 1) =~= names_of(d.params@).take(j as int).push(
                        d.params@[j as int]@,
                    ));
                }
                j = j + 1;
            }
            proof { assert(names_of(d.params@).take(d.params.len() as int) =~= names_of(d.params@)); }
            collect_names(&d.body, &mut used);
            proof {
                assert(defs_of(program.definitions@.take(i + 1)).drop_last() =~= defs_of(
                    program.definitions@.take(i as int),
                ));
                assert(defs_of(program.definitions@.take(i + 1)).last() == d@);
                assert(names_of(used@) =~= definitions_names(defs_of(program.definitions@.take(i + 1))));
            }
            i = i + 1;
        }
        proof { assert(program.definitions@.take(program.definitions.len() as int) =~= program.definitions@); }
        match &program.body {
            Some(b) => {
                collect_names(b, &mut used);
            },
            None => {
                proof { assert(names_of(used@) =~= names_of(used@) + Seq::<Seq<char>>::empty()); }
            },
        }
        Fresh { next: 0, used }
    }
}

impl Default for Fresh {
    /// An empty name supply.
    fn default() -> (r: Fresh)
        ensures
            r.wf(),
            r@ == (FreshState { next: 0, used: Set::empty() }),
    {
        let used: Vec<String> = Vec::new();
        proof { assert(names_of(used@).to_set() =~= Set::empty()); }
        Fresh { next: 0, used }
    }
}

/// The text of [`opt_name`].
fn opt_name_text(n: usize) -> (r: String)
    ensures
        r@ == opt_name(n as nat),
{
    let mut s = String::new();
    push_str(&mut s, "schemeOpt");
    push_decimal(&mut s, n as u64);
    proof { assert(s@ =~= opt_name(n as nat)); }
    s
}

/// Every name `t` mentions: variables, callees and `let`-bound names.
pub open spec fn names_in(t: Term) -> Seq<Seq<char>>
    decreases t,
{
    match t {
        Term::Var(n) => seq![n],
        Term::Call { callee, args } => seq![callee] + names_in_all(args),
        Term::Primitive { args, .. } => names_in_all(args),
        Term::If { condition, then_branch, else_branch } => names_in(*condition) + names_in(*then_branch)
            + names_in(*else_branch),
        Term::Let { bindings, body } => names_in_bindings(bindings) + names_in(*body),
        Term::Cons(h, tl) => names_in(*h) + names_in(*tl),
        Term::Car(v) | Term::Cdr(v) | Term::Null(v) => names_in(*v),
        Term::Number(_) | Term::Bool(_) | Term::Nil => Seq::empty(),
    }
}

pub open spec fn names_in_all(s: Seq<Term>) -> Seq<Seq<char>>
    decreases s,
{
    if s.len() == 0 {
        Seq::empty()
    } else {
        names_in_all(s.drop_last()) + names_in(s.last())
    }
}

pub open spec fn names_in_bindings(s: Seq<(Seq<char>, Term)>) -> Seq<Seq<char>>
    decreases s,
{
    if s.len() == 0 {
        Seq::empty()
    } else {
        names_in_bindings(s.drop_last()) + seq![s.last().0] + names_in(s.last().1)
    }
}

/// Every name the definitions mention: each one's name, parameters and
/// body, in order.
pub open spec fn definitions_names(defs: Seq<DefTerm>) -> Seq<Seq<char>>
    decreases defs.len(),
{
    if defs.len() == 0 {
        Seq::empty()
    } else {
        definitions_names(defs.drop_last()) + seq![defs.last().name] + defs.last().params + names_in(
            defs.last().body,
        )
    }
}

/// Every name a program mentions.
pub open spec fn program_names(p: ProgramTerm) -> Seq<Seq<char>> {
    definitions_names(p.definitions) + match p.body {
        Some(b) => names_in(b),
        None => Seq::empty(),
    }
}

/// Appends every name `e` mentions.
#[verifier::loop_isolation(false)]
pub fn collect_names(e: &Expr, names: &mut Vec<String>)
    ensures
        names_of(final(names)@) == names_of(old(names)@) + names_in(e@),
    decreases e,
{
    let ghost start = names_of(names@);
    match e {
        Expr::Var(name) => {
            names.push(name.clone());
            proof { assert(names_of(names@) =~= start + names_in(e@)); }
        },
        Expr::Call { callee, args } => {
            names.push(callee.clone());
            proof { assert(names_of(names@) =~= start + seq![callee@]); }
            let mut i: usize = 0;
            while i < args.len()
                invariant
                    i <= args.len(),
                    names_of(names@) == start + seq![callee@] + names_in_all(terms_of(args@.take(i as int))),
                decreases args.len() - i,
            {
                proof {
                    assert(decreases_to!(e => args@[i as int]));
                    assert(args@.take(i + 1).drop_last() =~= args@.take(i as int));
                    let pre = terms_of(args@.take(i as int));
                    assert(pre.push(term_of(args@[i as int])).drop_last() =~= pre);
                }
                collect_names(&args[i], names);
                proof {
                    let pre = names_in_all(terms_of(args@.take(i as int)));
                    let x = names_in(term_of(args@[i as int]));
                    assert(start + seq![callee@] + pre + x =~= start + seq![callee@] + (pre + x));
                }
                i = i + 1;
            }
            proof {
                assert(args@.take(args.len() as int) =~= args@);
                assert(start + seq![callee@] + names_in_all(terms_of(args@)) =~= start + names_in(e@));
            }
        },
        Expr::Primitive { args, .. } => {
            proof { assert(start =~= start + names_in_all(terms_of(args@.take(0)))); }
            let mut i: usize = 0;
            while i < args.len()
                invariant
                    i <= args.len(),
                    names_of(names@) == start + names_in_all(terms_of(args@.take(i as int))),
                decreases args.len() - i,
            {
                proof {
                    assert(decreases_to!(e => args@[i as int]));
                    assert(args@.take(i + 1).drop_last() =~= args@.take(i as int));
                    let pre = terms_of(args@.take(i as int));
                    assert(pre.push(term_of(args@[i as int])).drop_last() =~= pre);
                }
                collect_names(&args[i], names);
                proof {
                    let pre = names_in_all(terms_of(args@.take(i as int)));
                    let x = names_in(term_of(args@[i as int]));
                    assert(start + pre + x =~= start + (pre + x));
                }
                i = i + 1;
            }
            proof { assert(args@.take(args.len() as int) =~= args@); }
        },
        Expr::If { condition, then_branch, else_branch } => {
            collect_names(condition, names);
            collect_names(then_branch, names);
            collect_names(else_branch, names);
            proof { assert(names_of(names@) =~= start + names_in(e@)); }
        },
        Expr::Let { bindings, body } => {
            proof { assert(start =~= start + names_in_bindings(binding_terms_of(bindings@.take(0)))); }
            let mut i: usize = 0;
            while i < bindings.len()
                invariant
                    i <= bindings.len(),
                    names_of(names@) == start + names_in_bindings(binding_terms_of(bindings@.take(i as int))),
                decreases bindings.len() - i,
            {
                proof {
                    assert(decreases_to!(e => bindings@[i as int].1));
                    assert(bindings@.take(i + 1).drop_last() =~= bindings@.take(i as int));
                    let pre = binding_terms_of(bindings@.take(i as int));
                    let b = bindings@[i as int];
                    assert(pre.push((b.0@, term_of(b.1))).drop_last() =~= pre);
                }
                let ghost prev = names@;
                names.push(bindings[i].0.clone());
                proof { assert(names_of(names@) =~= names_of(prev).push(bindings@[i as int].0@)); }
                collect_names(&bindings[i].1, names);
                proof {
                    let pre = names_in_bindings(binding_terms_of(bindings@.take(i as int)));
                    let n = bindings@[i as int].0@;
                    let x = names_in(term_of(bindings@[i as int].1));
                    assert(start + pre + seq![n] + x =~= start + (pre + seq![n] + x));
                    assert(names_of(prev).push(n) =~= names_of(prev) + seq![n]);
                }
                i = i + 1;
            }
            proof { assert(bindings@.take(bindings.len() as int) =~= bindings@); }
            collect_names(body, names);
            proof { assert(names_of(names@) =~= start + names_in(e@)); }
        },
        Expr::Cons(h, t) => {
            collect_names(h, names);
            collect_names(t, names);
            proof { assert(names_of(names@) =~= start + names_in(e@)); }
        },
        Expr::Car(v) | Expr::Cdr(v) | Expr::Null(v) => {
            collect_names(v, names);
        },
        Expr::Number(_) | Expr::Bool(_) | Expr::Nil => {
            proof { assert(names_of(names@) =~= start + names_in(e@)); }
        },
    }
}


// ---------------------------------------------------------------------------
// Renaming copies
// ---------------------------------------------------------------------------

/// A renaming of names: later entries take precedence.
pub type Renaming = Seq<(Seq<char>, Seq<char>)>;

pub open spec fn pairs_of(v: Seq<(String, String)>) -> Renaming {
    v.map_values(|p: (String, String)| (p.0@, p.1@))
}

/// What `name` is renamed to under `env`; itself when `env` does not name it.
pub open spec fn renamed_to(env: Renaming, name: Seq<char>) -> Seq<char>
    decreases env.len(),
{
    if env.len() == 0 {
        name
    } else if env.last().0 == name {
        env.last().1
    } else {
        renamed_to(env.drop_last(), name)
    }
}

/// Give each binding a fresh name, in order, and extend `env` to map the old
/// name to the new one.
pub open spec fn freshen(s: Seq<(Seq<char>, Term)>, env: Renaming, st: FreshState) -> (
    Seq<(Seq<char>, Term)>,
    Renaming,
    FreshState,
)
    decreases s.len(),
{
    if s.len() == 0 {
        (s, env, st)
    } else {
        let (front, e1, s1) = freshen(s.drop_last(), env, st);
        let (local, s2) = take_local(s1);
        (front.push((local, s.last().1)), e1.push((s.last().0, local)), s2)
    }
}

/// A copy of `t` with the variables in `env` renamed and every `let`-bound
/// name replaced by a fresh one, with the state of the name supply after.
pub open spec fn renamed(t: Term, env: Renaming, st: FreshState) -> (Term, FreshState)
    decreases t,
{
    match t {
        Term::Var(n) => (Term::Var(renamed_to(env, n)), st),
        Term::Primitive { op, args } => {
            let (a, s1) = renamed_all(args, env, st);
            (Term::Primitive { op, args: a }, s1)
        },
        Term::Call { callee, args } => {
            let (a, s1) = renamed_all(args, env, st);
            (Term::Call { callee, args: a }, s1)
        },
        Term::If { condition, then_branch, else_branch } => {
            let (c, s1) = renamed(*condition, env, st);
            let (a, s2) = renamed(*then_branch, env, s1);
            let (b, s3) = renamed(*else_branch, env, s2);
            (Term::If { condition: Box::new(c), then_branch: Box::new(a), else_branch: Box::new(b) }, s3)
        },
        Term::Let { bindings, body } => {
            let (values, s1) = renamed_values(bindings, env, st);
            let (bs, inner, s2) = freshen(values, env, s1);
            let (b, s3) = renamed(*body, inner, s2);
            (Term::Let { bindings: bs, body: Box::new(b) }, s3)
        },
        Term::Cons(h, tl) => {
            let (x, s1) = renamed(*h, env, st);
            let (y, s2) = renamed(*tl, env, s1);
            (Term::Cons(Box::new(x), Box::new(y)), s2)
        },
        Term::Car(v) => {
            let (x, s1) = renamed(*v, env, st);
            (Term::Car(Box::new(x)), s1)
        },
        Term::Cdr(v) => {
            let (x, s1) = renamed(*v, env, st);
            (Term::Cdr(Box::new(x)), s1)
        },
        Term::Null(v) => {
            let (x, s1) = renamed(*v, env, st);
            (Term::Null(Box::new(x)), s1)
        },
        _ => (t, st),
    }
}

pub open spec fn renamed_all(s: Seq<Term>, env: Renaming, st: FreshState) -> (Seq<Term>, FreshState)
    decreases s,
{
    if s.len() == 0 {
        (s, st)
    } else {
        let (front, s1) = renamed_all(s.drop_last(), env, st);
        let (x, s2) = renamed(s.last(), env, s1);
        (front.push(x), s2)
    }
}

pub open spec fn renamed_values(s: Seq<(Seq<char>, Term)>, env: Renaming, st: FreshState) -> (
    Seq<(Seq<char>, Term)>,
    FreshState,
)
    decreases s,
{
    if s.len() == 0 {
        (s, st)
    } else {
        let (front, s1) = renamed_values(s.drop_last(), env, st);
        let (x, s2) = renamed(s.last().1, env, s1);
        (front.push((s.last().0, x)), s2)
    }
}

/// What `name` is renamed to under `env`.
fn rename_lookup(env: &Vec<(String, String)>, name: &String) -> (r: String)
    ensures
        r@ == renamed_to(pairs_of(env@), name@),
{
    let mut i: usize = env.len();
    proof { assert(env@.take(env.len() as int) =~= env@); }
    while i > 0
        invariant
            i <= env.len(),
            renamed_to(pairs_of(env@), name@) == renamed_to(pairs_of(env@.take(i as int)), name@),
        decreases i,
    {
        proof { assert(pairs_of(env@.take(i as int)).drop_last() =~= pairs_of(env@.take(i - 1))); }
        if crate::text::same_text(&env[i - 1].0, name) {
            return env[i - 1].1.clone();
        }
        i = i - 1;
    }
    proof { assert(pairs_of(env@.take(0)) =~= Seq::empty()); }
    name.clone()
}

/// A copy of a renaming.
fn copy_renaming(env: &Vec<(String, String)>) -> (r: Vec<(String, String)>)
    ensures
        pairs_of(r@) == pairs_of(env@),
{
    let mut out: Vec<(String, String)> = Vec::new();
    let mut i: usize = 0;
    while i < env.len()
        invariant
            i <= env.len(),
            pairs_of(out@) == pairs_of(env@.take(i as int)),
        decreases env.len() - i,
    {
        let ghost before = out@;
        let pair = (env[i].0.clone(), env[i].1.clone());
        out.push(pair);
        proof {
            assert(pairs_of(out@) =~= pairs_of(before).push((pair.0@, pair.1@)));
            assert(pairs_of(env@.take(i + 1)) =~= pairs_of(env@.take(i as int)).push(
                (env@[i as int].0@, env@[i as int].1@),
            ));
        }
        i = i + 1;
    }
    proof { assert(env@.take(env.len() as int) =~= env@); }
    out
}

fn clone_all_with_renaming(args: &Vec<Expr>, env: &Vec<(String, String)>, fresh: &mut Fresh) -> (r: Vec<Expr>)
    requires
        old(fresh).wf(),
    ensures
        final(fresh).wf(),
        (terms_of(r@), final(fresh)@) == renamed_all(terms_of(args@), pairs_of(env@), old(fresh)@),
    decreases args, 0nat,
{
    let ghost start = fresh@;
    let mut out: Vec<Expr> = Vec::new();
    let mut i: usize = 0;
    while i < args.len()
        invariant
            i <= args.len(),
            fresh.wf(),
            (terms_of(out@), fresh@) == renamed_all(terms_of(args@.take(i as int)), pairs_of(env@), start),
        decreases args.len() - i,
    {
        proof {
            assert(decreases_to!(args => args@[i as int]));
            assert(args@.take(i + 1).drop_last() =~= args@.take(i as int));
            let pre = terms_of(args@.take(i as int));
            assert(pre.push(term_of(args@[i as int])).drop_last() =~= pre);
        }
        let x = clone_with_renaming(&args[i], env, fresh);
        proof { assert(out@.push(x).drop_last() =~= out@); }
        out.push(x);
        i = i + 1;
    }
    proof { assert(args@.take(args.len() as int) =~= args@); }
    out
}

/// Clone an expression, replacing variables in `env` and giving each nested
/// binding a fresh name. The source IR has already alpha-renamed locals, but
/// cloned call bodies need a second round of freshness.
#[verifier::loop_isolation(false)]
pub fn clone_with_renaming(e: &Expr, env: &Vec<(String, String)>, fresh: &mut Fresh) -> (r: Expr)
    requires
        old(fresh).wf(),
    ensures
        final(fresh).wf(),
        (r@, final(fresh)@) == renamed(e@, pairs_of(env@), old(fresh)@),
    decreases e,
{
    match e {
        Expr::Var(name) => Expr::Var(rename_lookup(env, name)),
        Expr::Primitive { op, args } => Expr::Primitive { op: *op, args: clone_all_with_renaming(args, env, fresh) },
        Expr::Call { callee, args } => Expr::Call {
            callee: callee.clone(),
            args: clone_all_with_renaming(args, env, fresh),
        },
        Expr::If { condition, then_branch, else_branch } => {
            let c = clone_with_renaming(condition, env, fresh);
            let a = clone_with_renaming(then_branch, env, fresh);
            let b = clone_with_renaming(else_branch, env, fresh);
            Expr::If { condition: Box::new(c), then_branch: Box::new(a), else_branch: Box::new(b) }
        },
        Expr::Let { bindings, body } => {
            let ghost start = fresh@;
            let mut values: Vec<(String, Expr)> = Vec::new();
            let mut i: usize = 0;
            while i < bindings.len()
                invariant
                    i <= bindings.len(),
                    fresh.wf(),
                    (binding_terms_of(values@), fresh@) == renamed_values(
                        binding_terms_of(bindings@.take(i as int)),
                        pairs_of(env@),
                        start,
                    ),
                decreases bindings.len() - i,
            {
                proof {
                    assert(decreases_to!(e => bindings@[i as int].1));
                    assert(bindings@.take(i + 1).drop_last() =~= bindings@.take(i as int));
                    let pre = binding_terms_of(bindings@.take(i as int));
                    let b = bindings@[i as int];
                    assert(pre.push((b.0@, term_of(b.1))).drop_last() =~= pre);
                }
                let pair = (bindings[i].0.clone(), clone_with_renaming(&bindings[i].1, env, fresh));
                proof { assert(values@.push(pair).drop_last() =~= values@); }
                values.push(pair);
                i = i + 1;
            }
            proof { assert(bindings@.take(bindings.len() as int) =~= bindings@); }
            let ghost middle = fresh@;
            let mut inner = copy_renaming(env);
            let mut out: Vec<(String, Expr)> = Vec::new();
            let mut j: usize = 0;
            proof { assert(binding_terms_of(values@.take(0)) =~= Seq::empty()); }
            while j < values.len()
                invariant
                    j <= values.len(),
                    fresh.wf(),
                    (binding_terms_of(out@), pairs_of(inner@), fresh@) == freshen(
                        binding_terms_of(values@.take(j as int)),
                        pairs_of(env@),
                        middle,
                    ),
                decreases values.len() - j,
            {
                proof {
                    assert(values@.take(j + 1).drop_last() =~= values@.take(j as int));
                    let pre = binding_terms_of(values@.take(j as int));
                    let b = values@[j as int];
                    assert(pre.push((b.0@, term_of(b.1))).drop_last() =~= pre);
                }
                let local = fresh.local();
                let ghost before_inner = inner@;
                inner.push((values[j].0.clone(), local.clone()));
                proof { assert(pairs_of(inner@) =~= pairs_of(before_inner).push((values@[j as int].0@, local@))); }
                let pair = (local, copy_expr(&values[j].1));
                proof { assert(out@.push(pair).drop_last() =~= out@); }
                out.push(pair);
                j = j + 1;
            }
            proof { assert(values@.take(values.len() as int) =~= values@); }
            let b = clone_with_renaming(body, &inner, fresh);
            Expr::Let { bindings: out, body: Box::new(b) }
        },
        Expr::Cons(h, t) => {
            let x = clone_with_renaming(h, env, fresh);
            let y = clone_with_renaming(t, env, fresh);
            Expr::Cons(Box::new(x), Box::new(y))
        },
        Expr::Car(v) => Expr::Car(Box::new(clone_with_renaming(v, env, fresh))),
        Expr::Cdr(v) => Expr::Cdr(Box::new(clone_with_renaming(v, env, fresh))),
        Expr::Null(v) => Expr::Null(Box::new(clone_with_renaming(v, env, fresh))),
        Expr::Number(n) => Expr::Number(*n),
        Expr::Bool(b) => Expr::Bool(*b),
        Expr::Nil => Expr::Nil,
    }
}


// ---------------------------------------------------------------------------
// Inlining helpers
// ---------------------------------------------------------------------------

/// Bind the first `k` parameters to fresh locals: the renaming from each
/// parameter to its local, the bindings of the locals to the arguments, and
/// the supply after.
pub open spec fn bind_fresh(params: Seq<Seq<char>>, args: Seq<Term>, k: nat, st: FreshState) -> (
    Renaming,
    Seq<(Seq<char>, Term)>,
    FreshState,
)
    decreases k,
{
    if k == 0 {
        (Seq::empty(), Seq::empty(), st)
    } else {
        let (env, bs, s1) = bind_fresh(params, args, (k - 1) as nat, st);
        let (local, s2) = take_local(s1);
        (env.push((params[k - 1], local)), bs.push((local, args[k - 1])), s2)
    }
}

/// The number of pairs two sequences zip to.
pub open spec fn zip_len(a: nat, b: nat) -> nat {
    if a <= b {
        a
    } else {
        b
    }
}

/// Every argument is a variable.
pub open spec fn all_vars(s: Seq<Term>) -> bool {
    forall|i: int| 0 <= i < s.len() ==> #[trigger] s[i] is Var
}

/// The renaming of each parameter to the variable passed for it.
pub open spec fn var_renaming(params: Seq<Seq<char>>, args: Seq<Term>) -> Renaming {
    Seq::new(params.len(), |i: int| (params[i], args[i]->Var_0))
}

/// A helper's body in place of a call to it: with variable arguments the
/// parameters are renamed to them, otherwise each argument is bound once to
/// a fresh local.
pub open spec fn instantiated(h: DefTerm, args: Seq<Term>, st: FreshState) -> (Term, FreshState) {
    if all_vars(args) {
        renamed(h.body, var_renaming(h.params, args), st)
    } else {
        let (env, bs, s1) = bind_fresh(h.params, args, h.params.len(), st);
        let (b, s2) = renamed(h.body, env, s1);
        if bs.len() == 0 {
            (b, s2)
        } else {
            (Term::Let { bindings: bs, body: Box::new(b) }, s2)
        }
    }
}

/// `t` with every call to a helper whose arity matches replaced by the
/// helper's body, arguments first.
pub open spec fn inlined(t: Term, helpers: Seq<DefTerm>, st: FreshState) -> (Term, FreshState)
    decreases t,
{
    match t {
        Term::Call { callee, args } => {
            let (a, s1) = inlined_all(args, helpers, st);
            match find_def(helpers, callee) {
                Some(h) => if h.params.len() == a.len() {
                    instantiated(h, a, s1)
                } else {
                    (Term::Call { callee, args: a }, s1)
                },
                None => (Term::Call { callee, args: a }, s1),
            }
        },
        Term::Primitive { op, args } => {
            let (a, s1) = inlined_all(args, helpers, st);
            (Term::Primitive { op, args: a }, s1)
        },
        Term::If { condition, then_branch, else_branch } => {
            let (c, s1) = inlined(*condition, helpers, st);
            let (a, s2) = inlined(*then_branch, helpers, s1);
            let (b, s3) = inlined(*else_branch, helpers, s2);
            (Term::If { condition: Box::new(c), then_branch: Box::new(a), else_branch: Box::new(b) }, s3)
        },
        Term::Let { bindings, body } => {
            let (bs, s1) = inlined_bindings(bindings, helpers, st);
            let (b, s2) = inlined(*body, helpers, s1);
            (Term::Let { bindings: bs, body: Box::new(b) }, s2)
        },
        Term::Cons(h, tl) => {
            let (x, s1) = inlined(*h, helpers, st);
            let (y, s2) = inlined(*tl, helpers, s1);
            (Term::Cons(Box::new(x), Box::new(y)), s2)
        },
        Term::Car(v) => {
            let (x, s1) = inlined(*v, helpers, st);
            (Term::Car(Box::new(x)), s1)
        },
        Term::Cdr(v) => {
            let (x, s1) = inlined(*v, helpers, st);
            (Term::Cdr(Box::new(x)), s1)
        },
        Term::Null(v) => {
            let (x, s1) = inlined(*v, helpers, st);
            (Term::Null(Box::new(x)), s1)
        },
        _ => (t, st),
    }
}

pub open spec fn inlined_all(s: Seq<Term>, helpers: Seq<DefTerm>, st: FreshState) -> (Seq<Term>, FreshState)
    decreases s,
{
    if s.len() == 0 {
        (s, st)
    } else {
        let (front, s1) = inlined_all(s.drop_last(), helpers, st);
        let (x, s2) = inlined(s.last(), helpers, s1);
        (front.push(x), s2)
    }
}

pub open spec fn inlined_bindings(s: Seq<(Seq<char>, Term)>, helpers: Seq<DefTerm>, st: FreshState) -> (
    Seq<(Seq<char>, Term)>,
    FreshState,
)
    decreases s,
{
    if s.len() == 0 {
        (s, st)
    } else {
        let (front, s1) = inlined_bindings(s.drop_last(), helpers, st);
        let (x, s2) = inlined(s.last().1, helpers, s1);
        (front.push((s.last().0, x)), s2)
    }
}

/// A helper is safe to inline when it is small and its body has no calls.
/// This excludes recursion and avoids an unbounded inlining cascade.
pub open spec fn is_inline_candidate(d: DefTerm) -> bool {
    !has_call(d.body) && node_count(d.body) <= 24
}

/// Whether `definition` is small and call-free.
pub fn inline_candidate(definition: &Definition) -> (r: bool)
    ensures
        r == is_inline_candidate(definition@),
{
    !contains_call(&definition.body) && count_nodes(&definition.body) <= 24
}

/// Bind the first `count` parameters to fresh locals holding copies of the
/// arguments.
fn bind_fresh_locals(params: &Vec<String>, args: &Vec<Expr>, count: usize, fresh: &mut Fresh) -> (r: (
    Vec<(String, String)>,
    Vec<(String, Expr)>,
))
    requires
        old(fresh).wf(),
        count <= params.len(),
        count <= args.len(),
    ensures
        final(fresh).wf(),
        (pairs_of(r.0@), binding_terms_of(r.1@), final(fresh)@) == bind_fresh(
            names_of(params@),
            terms_of(args@),
            count as nat,
            old(fresh)@,
        ),
{
    let ghost start = fresh@;
    proof { lemma_terms_of(args@); }
    let mut env: Vec<(String, String)> = Vec::new();
    let mut bindings: Vec<(String, Expr)> = Vec::new();
    let mut i: usize = 0;
    proof {
        assert(pairs_of(env@) =~= Seq::empty());
        assert(binding_terms_of(bindings@) =~= Seq::empty());
    }
    while i < count
        invariant
            i <= count,
            count <= params.len(),
            count <= args.len(),
            fresh.wf(),
            terms_of(args@).len() == args@.len(),
            forall|j: int| 0 <= j < args@.len() ==> #[trigger] terms_of(args@)[j] == term_of(args@[j]),
            (pairs_of(env@), binding_terms_of(bindings@), fresh@) == bind_fresh(
                names_of(params@),
                terms_of(args@),
                i as nat,
                start,
            ),
        decreases count - i,
    {
        let local = fresh.local();
        let ghost before_env = env@;
        env.push((params[i].clone(), local.clone()));
        proof { assert(pairs_of(env@) =~= pairs_of(before_env).push((params@[i as int]@, local@))); }
        let pair = (local, copy_expr(&args[i]));
        proof { assert(bindings@.push(pair).drop_last() =~= bindings@); }
        bindings.push(pair);
        i = i + 1;
    }
    (env, bindings)
}

/// The renaming of each parameter to the variable passed for it.
fn var_renaming_of(params: &Vec<String>, args: &Vec<Expr>) -> (r: Vec<(String, String)>)
    requires
        params.len() == args.len(),
        all_vars(terms_of(args@)),
    ensures
        pairs_of(r@) == var_renaming(names_of(params@), terms_of(args@)),
{
    proof { lemma_terms_of(args@); }
    let mut env: Vec<(String, String)> = Vec::new();
    let mut i: usize = 0;
    while i < params.len()
        invariant
            i <= params.len(),
            params.len() == args.len(),
            all_vars(terms_of(args@)),
            terms_of(args@).len() == args@.len(),
            forall|j: int| 0 <= j < args@.len() ==> #[trigger] terms_of(args@)[j] == term_of(args@[j]),
            pairs_of(env@) == var_renaming(names_of(params@), terms_of(args@)).take(i as int),
        decreases params.len() - i,
    {
        proof { assert(terms_of(args@)[i as int] is Var); }
        match &args[i] {
            Expr::Var(v) => {
                let ghost before = env@;
                env.push((params[i].clone(), v.clone()));
                proof {
                    let vr = var_renaming(names_of(params@), terms_of(args@));
                    assert(terms_of(args@)[i as int] == Term::Var(v@));
                    assert(vr[i as int] == (params@[i as int]@, v@));
                    assert(pairs_of(env@) =~= pairs_of(before).push((params@[i as int]@, v@)));
                    assert(vr.take(i + 1) =~= vr.take(i as int).push(vr[i as int]));
                }
            },
            _ => {},
        }
        i = i + 1;
    }
    proof {
        assert(var_renaming(names_of(params@), terms_of(args@)).take(params.len() as int) =~= var_renaming(
            names_of(params@),
            terms_of(args@),
        ));
    }
    env
}

/// Whether every argument is a variable.
fn all_variables(args: &Vec<Expr>) -> (r: bool)
    ensures
        r == all_vars(terms_of(args@)),
{
    proof { lemma_terms_of(args@); }
    let mut i: usize = 0;
    while i < args.len()
        invariant
            i <= args.len(),
            terms_of(args@).len() == args@.len(),
            forall|j: int| 0 <= j < args@.len() ==> #[trigger] terms_of(args@)[j] == term_of(args@[j]),
            forall|j: int| 0 <= j < i ==> #[trigger] terms_of(args@)[j] is Var,
        decreases args.len() - i,
    {
        if !matches!(&args[i], Expr::Var(_)) {
            proof { assert(!(terms_of(args@)[i as int] is Var)); }
            return false;
        }
        i = i + 1;
    }
    true
}

/// The helper's body in place of a call with `args`.
fn instantiate(helper: &Definition, args: Vec<Expr>, fresh: &mut Fresh) -> (r: Expr)
    requires
        old(fresh).wf(),
        helper.params.len() == args.len(),
    ensures
        final(fresh).wf(),
        (r@, final(fresh)@) == instantiated(helper@, terms_of(args@), old(fresh)@),
{
    if all_variables(&args) {
        let env = var_renaming_of(&helper.params, &args);
        return clone_with_renaming(&helper.body, &env, fresh);
    }
    let (env, bindings) = bind_fresh_locals(&helper.params, &args, args.len(), fresh);
    let body = clone_with_renaming(&helper.body, &env, fresh);
    proof { lemma_binding_terms_of(bindings@); }
    if bindings.len() == 0 {
        body
    } else {
        Expr::Let { bindings, body: Box::new(body) }
    }
}

fn inline_all(args: &Vec<Expr>, helpers: &Vec<Definition>, fresh: &mut Fresh) -> (r: Vec<Expr>)
    requires
        old(fresh).wf(),
    ensures
        final(fresh).wf(),
        (terms_of(r@), final(fresh)@) == inlined_all(terms_of(args@), defs_of(helpers@), old(fresh)@),
    decreases args, 0nat,
{
    let ghost start = fresh@;
    let mut out: Vec<Expr> = Vec::new();
    let mut i: usize = 0;
    while i < args.len()
        invariant
            i <= args.len(),
            fresh.wf(),
            (terms_of(out@), fresh@) == inlined_all(terms_of(args@.take(i as int)), defs_of(helpers@), start),
        decreases args.len() - i,
    {
        proof {
            assert(decreases_to!(args => args@[i as int]));
            assert(args@.take(i + 1).drop_last() =~= args@.take(i as int));
            let pre = terms_of(args@.take(i as int));
            assert(pre.push(term_of(args@[i as int])).drop_last() =~= pre);
        }
        let x = inline_expr(&args[i], helpers, fresh);
        proof { assert(out@.push(x).drop_last() =~= out@); }
        out.push(x);
        i = i + 1;
    }
    proof { assert(args@.take(args.len() as int) =~= args@); }
    out
}

/// Replace direct calls to helpers by the helpers' bodies.
#[verifier::loop_isolation(false)]
pub fn inline_expr(e: &Expr, helpers: &Vec<Definition>, fresh: &mut Fresh) -> (r: Expr)
    requires
        old(fresh).wf(),
    ensures
        final(fresh).wf(),
        (r@, final(fresh)@) == inlined(e@, defs_of(helpers@), old(fresh)@),
    decreases e,
{
    match e {
        Expr::Call { callee, args } => {
            let args = inline_all(args, helpers, fresh);
            proof { lemma_terms_of(args@); }
            match lookup_def(helpers, callee) {
                Some(helper) => if helper.params.len() == args.len() {
                    instantiate(helper, args, fresh)
                } else {
                    // The arity problem is reported later; optimization
                    // does not change the diagnostic.
                    Expr::Call { callee: callee.clone(), args }
                },
                None => Expr::Call { callee: callee.clone(), args },
            }
        },
        Expr::Primitive { op, args } => Expr::Primitive { op: *op, args: inline_all(args, helpers, fresh) },
        Expr::If { condition, then_branch, else_branch } => {
            let c = inline_expr(condition, helpers, fresh);
            let a = inline_expr(then_branch, helpers, fresh);
            let b = inline_expr(else_branch, helpers, fresh);
            Expr::If { condition: Box::new(c), then_branch: Box::new(a), else_branch: Box::new(b) }
        },
        Expr::Let { bindings, body } => {
            let ghost start = fresh@;
            let mut out: Vec<(String, Expr)> = Vec::new();
            let mut i: usize = 0;
            while i < bindings.len()
                invariant
                    i <= bindings.len(),
                    fresh.wf(),
                    (binding_terms_of(out@), fresh@) == inlined_bindings(
                        binding_terms_of(bindings@.take(i as int)),
                        defs_of(helpers@),
                        start,
                    ),
                decreases bindings.len() - i,
            {
                proof {
                    assert(decreases_to!(e => bindings@[i as int].1));
                    assert(bindings@.take(i + 1).drop_last() =~= bindings@.take(i as int));
                    let pre = binding_terms_of(bindings@.take(i as int));
                    let b = bindings@[i as int];
                    assert(pre.push((b.0@, term_of(b.1))).drop_last() =~= pre);
                }
                let pair = (bindings[i].0.clone(), inline_expr(&bindings[i].1, helpers, fresh));
                proof { assert(out@.push(pair).drop_last() =~= out@); }
                out.push(pair);
                i = i + 1;
            }
            proof { assert(bindings@.take(bindings.len() as int) =~= bindings@); }
            let b = inline_expr(body, helpers, fresh);
            Expr::Let { bindings: out, body: Box::new(b) }
        },
        Expr::Cons(h, t) => {
            let x = inline_expr(h, helpers, fresh);
            let y = inline_expr(t, helpers, fresh);
            Expr::Cons(Box::new(x), Box::new(y))
        },
        Expr::Car(v) => Expr::Car(Box::new(inline_expr(v, helpers, fresh))),
        Expr::Cdr(v) => Expr::Cdr(Box::new(inline_expr(v, helpers, fresh))),
        Expr::Null(v) => Expr::Null(Box::new(inline_expr(v, helpers, fresh))),
        other => copy_expr(other),
    }
}


// ---------------------------------------------------------------------------
// Tail-recurrence unrolling
// ---------------------------------------------------------------------------

/// `t` is scalar (numbers, booleans, variables, primitives, `if`, `let`) and
/// every call in it is a call to `name` in tail position.
pub open spec fn scalar_ok(t: Term, name: Seq<char>, tail: bool) -> bool
    decreases t,
{
    match t {
        Term::Number(_) | Term::Bool(_) | Term::Var(_) => true,
        Term::Primitive { args, .. } => scalar_ok_all(args, name),
        Term::Call { callee, args } => callee == name && tail && scalar_ok_all(args, name),
        Term::If { condition, then_branch, else_branch } => scalar_ok(*condition, name, false) && scalar_ok(
            *then_branch,
            name,
            tail,
        ) && scalar_ok(*else_branch, name, tail),
        Term::Let { bindings, body } => scalar_ok_bindings(bindings, name) && scalar_ok(*body, name, tail),
        _ => false,
    }
}

pub open spec fn scalar_ok_all(s: Seq<Term>, name: Seq<char>) -> bool
    decreases s,
{
    s.len() == 0 || (scalar_ok_all(s.drop_last(), name) && scalar_ok(s.last(), name, false))
}

pub open spec fn scalar_ok_bindings(s: Seq<(Seq<char>, Term)>, name: Seq<char>) -> bool
    decreases s,
{
    s.len() == 0 || (scalar_ok_bindings(s.drop_last(), name) && scalar_ok(s.last().1, name, false))
}

/// A closed, scalar self-tail-recurrence: scalar, its only calls are tail
/// calls to itself, and it makes at least one.
pub open spec fn scalar_tail_recurrence(t: Term, name: Seq<char>) -> bool {
    scalar_ok(t, name, true) && calls(t, name)
}

/// Whether `e` is scalar with self tail calls only.
#[verifier::loop_isolation(false)]
pub fn scalar_tail_calls_only(e: &Expr, name: &String, tail: bool) -> (r: bool)
    ensures
        r == scalar_ok(e@, name@, tail),
    decreases e,
{
    match e {
        Expr::Number(_) | Expr::Bool(_) | Expr::Var(_) => true,
        Expr::Primitive { args, .. } | Expr::Call { args, .. } => {
            let head = match e {
                Expr::Call { callee, .. } => crate::text::same_text(callee, name) && tail,
                _ => true,
            };
            let mut ok = head;
            let mut i: usize = 0;
            while i < args.len()
                invariant
                    i <= args.len(),
                    ok == (head && scalar_ok_all(terms_of(args@.take(i as int)), name@)),
                decreases args.len() - i,
            {
                proof {
                    assert(decreases_to!(e => args@[i as int]));
                    assert(args@.take(i + 1).drop_last() =~= args@.take(i as int));
                    let pre = terms_of(args@.take(i as int));
                    assert(pre.push(term_of(args@[i as int])).drop_last() =~= pre);
                }
                ok = ok && scalar_tail_calls_only(&args[i], name, false);
                i = i + 1;
            }
            proof { assert(args@.take(args.len() as int) =~= args@); }
            ok
        },
        Expr::If { condition, then_branch, else_branch } => scalar_tail_calls_only(condition, name, false)
            && scalar_tail_calls_only(then_branch, name, tail) && scalar_tail_calls_only(
            else_branch,
            name,
            tail,
        ),
        Expr::Let { bindings, body } => {
            let mut ok = true;
            let mut i: usize = 0;
            while i < bindings.len()
                invariant
                    i <= bindings.len(),
                    ok == scalar_ok_bindings(binding_terms_of(bindings@.take(i as int)), name@),
                decreases bindings.len() - i,
            {
                proof {
                    assert(decreases_to!(e => bindings@[i as int].1));
                    assert(bindings@.take(i + 1).drop_last() =~= bindings@.take(i as int));
                    let pre = binding_terms_of(bindings@.take(i as int));
                    let b = bindings@[i as int];
                    assert(pre.push((b.0@, term_of(b.1))).drop_last() =~= pre);
                }
                ok = ok && scalar_tail_calls_only(&bindings[i].1, name, false);
                i = i + 1;
            }
            proof { assert(bindings@.take(bindings.len() as int) =~= bindings@); }
            ok && scalar_tail_calls_only(body, name, tail)
        },
        _ => false,
    }
}

/// Whether `e` is a closed, scalar self-tail-recurrence of `name`.
pub fn is_scalar_tail_recurrence(e: &Expr, name: &String) -> (r: bool)
    ensures
        r == scalar_tail_recurrence(e@, name@),
{
    scalar_tail_calls_only(e, name, true) && calls_name(e, name)
}

/// `t` with each self tail call, while `remaining` allows, replaced by a
/// fresh copy of the body with every next-state argument bound once.
pub open spec fn expanded(t: Term, d: DefTerm, remaining: nat, st: FreshState) -> (Term, FreshState)
    decreases remaining, t,
{
    match t {
        Term::Call { callee, args } => if callee == d.name && remaining > 0 {
            let (env, bs, s1) = bind_fresh(d.params, args, zip_len(d.params.len(), args.len()), st);
            let (activated, s2) = renamed(d.body, env, s1);
            let (b, s3) = expanded(activated, d, (remaining - 1) as nat, s2);
            (Term::Let { bindings: bs, body: Box::new(b) }, s3)
        } else {
            (t, st)
        },
        Term::If { condition, then_branch, else_branch } => {
            let (a, s1) = expanded(*then_branch, d, remaining, st);
            let (b, s2) = expanded(*else_branch, d, remaining, s1);
            (Term::If { condition, then_branch: Box::new(a), else_branch: Box::new(b) }, s2)
        },
        Term::Let { bindings, body } => {
            let (b, s1) = expanded(*body, d, remaining, st);
            (Term::Let { bindings, body: Box::new(b) }, s1)
        },
        _ => (t, st),
    }
}

/// Expand the self tail calls of `e` `remaining` levels deep.
pub fn expand_tail(e: &Expr, definition: &Definition, remaining: usize, fresh: &mut Fresh) -> (r: Expr)
    requires
        old(fresh).wf(),
    ensures
        final(fresh).wf(),
        (r@, final(fresh)@) == expanded(e@, definition@, remaining as nat, old(fresh)@),
    decreases remaining, e,
{
    match e {
        Expr::Call { callee, args } => {
            if remaining > 0 && crate::text::same_text(callee, &definition.name) {
                let count = if definition.params.len() <= args.len() {
                    definition.params.len()
                } else {
                    args.len()
                };
                proof { lemma_terms_of(args@); }
                let (env, bindings) = bind_fresh_locals(&definition.params, args, count, fresh);
                let activated = clone_with_renaming(&definition.body, &env, fresh);
                let body = expand_tail(&activated, definition, remaining - 1, fresh);
                Expr::Let { bindings, body: Box::new(body) }
            } else {
                copy_expr(e)
            }
        },
        Expr::If { condition, then_branch, else_branch } => {
            let a = expand_tail(then_branch, definition, remaining, fresh);
            let b = expand_tail(else_branch, definition, remaining, fresh);
            Expr::If { condition: Box::new(copy_expr(condition)), then_branch: Box::new(a), else_branch: Box::new(b) }
        },
        Expr::Let { bindings, body } => {
            let b = expand_tail(body, definition, remaining, fresh);
            Expr::Let { bindings: copy_bindings(bindings), body: Box::new(b) }
        },
        other => copy_expr(other),
    }
}

/// The largest unrolled body, in expressions, the pass accepts.
pub const UNROLL_BUDGET: usize = 8192usize;

/// A definition's body with its closed scalar tail recurrence expanded
/// `factor` times in one function body, unless the expansion would grow
/// past the budget.
pub open spec fn unrolled(d: DefTerm, factor: nat, st: FreshState) -> (Term, FreshState) {
    if !scalar_tail_recurrence(d.body, d.name) {
        (d.body, st)
    } else if capped(node_count(d.body)) * factor > UNROLL_BUDGET {
        (d.body, st)
    } else {
        expanded(d.body, d, if factor == 0 { 0 } else { (factor - 1) as nat }, st)
    }
}

/// Expands a closed, scalar tail recurrence by a fixed factor. The expansion
/// is still Bend source: it only replaces several call reductions with one
/// larger ordinary function body. Every intermediate state is bound first,
/// so Scheme's eager, simultaneous call-argument semantics are preserved.
pub fn unroll_tail_recurrence(definition: &Definition, factor: usize, fresh: &mut Fresh) -> (r: Expr)
    requires
        old(fresh).wf(),
    ensures
        final(fresh).wf(),
        (r@, final(fresh)@) == unrolled(definition@, factor as nat, old(fresh)@),
{
    if !is_scalar_tail_recurrence(&definition.body, &definition.name) {
        return copy_expr(&definition.body);
    }
    let size = count_nodes(&definition.body);
    let too_big = match size.checked_mul(factor) {
        Some(product) => product > UNROLL_BUDGET,
        None => true,
    };
    if too_big {
        return copy_expr(&definition.body);
    }
    let remaining = if factor == 0 {
        0
    } else {
        factor - 1
    };
    expand_tail(&definition.body, definition, remaining, fresh)
}


// ---------------------------------------------------------------------------
// Sharing repeated numeric work
// ---------------------------------------------------------------------------

/// Every total numeric subtree of `t` that costs something, in preorder.
pub open spec fn numeric_trees(t: Term) -> Seq<Term>
    decreases t,
{
    (if total_numeric(t) && cost_of(t) > 0 {
        seq![t]
    } else {
        Seq::empty()
    }) + match t {
        Term::Primitive { args, .. } => numeric_trees_all(args),
        Term::Call { args, .. } => numeric_trees_all(args),
        Term::If { condition, then_branch, else_branch } => numeric_trees(*condition) + numeric_trees(
            *then_branch,
        ) + numeric_trees(*else_branch),
        Term::Let { bindings, body } => numeric_trees_bindings(bindings) + numeric_trees(*body),
        Term::Cons(h, tl) => numeric_trees(*h) + numeric_trees(*tl),
        Term::Car(v) | Term::Cdr(v) | Term::Null(v) => numeric_trees(*v),
        _ => Seq::empty(),
    }
}

pub open spec fn numeric_trees_all(s: Seq<Term>) -> Seq<Term>
    decreases s,
{
    if s.len() == 0 {
        Seq::empty()
    } else {
        numeric_trees_all(s.drop_last()) + numeric_trees(s.last())
    }
}

pub open spec fn numeric_trees_bindings(s: Seq<(Seq<char>, Term)>) -> Seq<Term>
    decreases s,
{
    if s.len() == 0 {
        Seq::empty()
    } else {
        numeric_trees_bindings(s.drop_last()) + numeric_trees(s.last().1)
    }
}

/// Appends every total numeric subtree of `e` that costs something.
#[verifier::loop_isolation(false)]
pub fn collect_numeric_trees(e: &Expr, candidates: &mut Vec<Expr>)
    ensures
        terms_of(final(candidates)@) == terms_of(old(candidates)@) + numeric_trees(e@),
    decreases e,
{
    let ghost start = terms_of(candidates@);
    let ghost head: Seq<Term> = if total_numeric(e@) && cost_of(e@) > 0 {
        seq![e@]
    } else {
        Seq::empty()
    };
    if total_numeric_tree(e) && numeric_cost(e) > 0 {
        let c = copy_expr(e);
        proof { assert(candidates@.push(c).drop_last() =~= candidates@); }
        candidates.push(c);
    }
    proof { assert(terms_of(candidates@) =~= start + head); }
    match e {
        Expr::Primitive { args, .. } | Expr::Call { args, .. } => {
            proof { assert(start + head =~= start + head + numeric_trees_all(terms_of(args@.take(0)))); }
            let mut i: usize = 0;
            while i < args.len()
                invariant
                    i <= args.len(),
                    terms_of(candidates@) == start + head + numeric_trees_all(terms_of(args@.take(i as int))),
                decreases args.len() - i,
            {
                proof {
                    assert(decreases_to!(e => args@[i as int]));
                    assert(args@.take(i + 1).drop_last() =~= args@.take(i as int));
                    let pre = terms_of(args@.take(i as int));
                    assert(pre.push(term_of(args@[i as int])).drop_last() =~= pre);
                }
                collect_numeric_trees(&args[i], candidates);
                proof {
                    let pre = numeric_trees_all(terms_of(args@.take(i as int)));
                    let x = numeric_trees(term_of(args@[i as int]));
                    assert(start + head + pre + x =~= start + head + (pre + x));
                }
                i = i + 1;
            }
            proof {
                assert(args@.take(args.len() as int) =~= args@);
                assert(start + head + numeric_trees_all(terms_of(args@)) =~= start + numeric_trees(e@));
            }
        },
        Expr::If { condition, then_branch, else_branch } => {
            collect_numeric_trees(condition, candidates);
            collect_numeric_trees(then_branch, candidates);
            collect_numeric_trees(else_branch, candidates);
            proof { assert(terms_of(candidates@) =~= start + numeric_trees(e@)); }
        },
        Expr::Let { bindings, body } => {
            proof {
                assert(start + head =~= start + head + numeric_trees_bindings(binding_terms_of(bindings@.take(0))));
            }
            let mut i: usize = 0;
            while i < bindings.len()
                invariant
                    i <= bindings.len(),
                    terms_of(candidates@) == start + head + numeric_trees_bindings(
                        binding_terms_of(bindings@.take(i as int)),
                    ),
                decreases bindings.len() - i,
            {
                proof {
                    assert(decreases_to!(e => bindings@[i as int].1));
                    assert(bindings@.take(i + 1).drop_last() =~= bindings@.take(i as int));
                    let pre = binding_terms_of(bindings@.take(i as int));
                    let b = bindings@[i as int];
                    assert(pre.push((b.0@, term_of(b.1))).drop_last() =~= pre);
                }
                collect_numeric_trees(&bindings[i].1, candidates);
                proof {
                    let pre = numeric_trees_bindings(binding_terms_of(bindings@.take(i as int)));
                    let x = numeric_trees(term_of(bindings@[i as int].1));
                    assert(start + head + pre + x =~= start + head + (pre + x));
                }
                i = i + 1;
            }
            proof { assert(bindings@.take(bindings.len() as int) =~= bindings@); }
            collect_numeric_trees(body, candidates);
            proof { assert(terms_of(candidates@) =~= start + numeric_trees(e@)); }
        },
        Expr::Cons(h, t) => {
            collect_numeric_trees(h, candidates);
            collect_numeric_trees(t, candidates);
            proof { assert(terms_of(candidates@) =~= start + numeric_trees(e@)); }
        },
        Expr::Car(v) | Expr::Cdr(v) | Expr::Null(v) => {
            collect_numeric_trees(v, candidates);
            proof { assert(terms_of(candidates@) =~= start + numeric_trees(e@)); }
        },
        _ => {
            proof { assert(terms_of(candidates@) =~= start + numeric_trees(e@)); }
        },
    }
}

/// The first index of an entry for `x` in `counts`.
pub open spec fn entry_index(counts: Seq<(Term, nat)>, x: Term) -> Option<int>
    decreases counts.len(),
{
    if counts.len() == 0 {
        None
    } else {
        match entry_index(counts.drop_last(), x) {
            Some(i) => Some(i),
            None => if counts.last().0 == x {
                Some(counts.len() - 1)
            } else {
                None
            },
        }
    }
}

/// `counts` with one more occurrence of `x`.
pub open spec fn bump(counts: Seq<(Term, nat)>, x: Term) -> Seq<(Term, nat)> {
    match entry_index(counts, x) {
        Some(i) => counts.update(i, (x, counts[i].1 + 1)),
        None => counts.push((x, 1)),
    }
}

/// Each distinct term of `s` with how often it occurs, in order of first
/// occurrence.
pub open spec fn tally(s: Seq<Term>) -> Seq<(Term, nat)>
    decreases s.len(),
{
    if s.len() == 0 {
        Seq::empty()
    } else {
        bump(tally(s.drop_last()), s.last())
    }
}

/// A candidate worth sharing occurs at least twice and costs something.
pub open spec fn eligible(entry: (Term, nat)) -> bool {
    entry.1 >= 2 && cost_of(entry.0) > 0
}

/// How much sharing an entry saves, then how large it is.
pub open spec fn saving(entry: (Term, nat)) -> (int, int) {
    (capped(cost_of(entry.0)) * (entry.1 - 1), capped(cost_of(entry.0)) as int)
}

pub open spec fn saving_le(a: (int, int), b: (int, int)) -> bool {
    a.0 < b.0 || (a.0 == b.0 && a.1 <= b.1)
}

/// The eligible entry with the greatest saving; the last one on a tie.
pub open spec fn best_entry(counts: Seq<(Term, nat)>) -> Option<(Term, nat)>
    decreases counts.len(),
{
    if counts.len() == 0 {
        None
    } else {
        let prev = best_entry(counts.drop_last());
        let e = counts.last();
        if !eligible(e) {
            prev
        } else {
            match prev {
                None => Some(e),
                Some(p) => if saving_le(saving(p), saving(e)) {
                    Some(e)
                } else {
                    Some(p)
                },
            }
        }
    }
}

/// The candidate to share first among `candidates`.
pub open spec fn best_of(candidates: Seq<Term>) -> Option<Term> {
    match best_entry(tally(candidates)) {
        Some(e) => Some(e.0),
        None => None,
    }
}

pub open spec fn counts_of(v: Seq<(Expr, usize)>) -> Seq<(Term, nat)> {
    v.map_values(|p: (Expr, usize)| (p.0@, p.1 as nat))
}

proof fn lemma_entry_index(counts: Seq<(Term, nat)>, x: Term)
    ensures
        entry_index(counts, x) matches Some(i) ==> 0 <= i < counts.len() && counts[i].0 == x,
    decreases counts.len(),
{
    if counts.len() > 0 {
        lemma_entry_index(counts.drop_last(), x);
    }
}

proof fn lemma_tally(s: Seq<Term>)
    ensures
        forall|i: int| 0 <= i < tally(s).len() ==> s.contains(#[trigger] tally(s)[i].0) && tally(s)[i].1 <= s.len(),
        tally(s).len() <= s.len(),
    decreases s.len(),
{
    if s.len() > 0 {
        let pre = s.drop_last();
        lemma_tally(pre);
        lemma_entry_index(tally(pre), s.last());
        assert forall|i: int| 0 <= i < tally(s).len() implies s.contains(#[trigger] tally(s)[i].0) && tally(s)[i].1
            <= s.len() by {
            if i < tally(pre).len() && tally(s)[i].0 != s.last() {
                assert(tally(s)[i] == tally(pre)[i]);
                let j = choose|j: int| 0 <= j < pre.len() && pre[j] == tally(pre)[i].0;
                assert(s[j] == pre[j]);
            } else {
                assert(s[s.len() - 1] == s.last());
            }
        }
    }
}

proof fn lemma_best_entry(counts: Seq<(Term, nat)>)
    ensures
        best_entry(counts) matches Some(e) ==> counts.contains(e) && eligible(e),
    decreases counts.len(),
{
    if counts.len() > 0 {
        lemma_best_entry(counts.drop_last());
        if let Some(p) = best_entry(counts.drop_last()) {
            let j = choose|j: int| 0 <= j < counts.drop_last().len() && counts.drop_last()[j] == p;
            assert(counts[j] == p);
        }
        assert(counts[counts.len() - 1] == counts.last());
    }
}

/// The first index of an entry for `x`.
fn find_entry(counts: &Vec<(Expr, usize)>, x: &Expr) -> (r: Option<usize>)
    ensures
        r matches Some(i) ==> entry_index(counts_of(counts@), x@) == Some(i as int),
        r is None ==> entry_index(counts_of(counts@), x@) is None,
{
    let mut i: usize = 0;
    proof { assert(counts_of(counts@).take(0) =~= Seq::empty()); }
    while i < counts.len()
        invariant
            i <= counts.len(),
            entry_index(counts_of(counts@).take(i as int), x@) is None,
        decreases counts.len() - i,
    {
        proof { assert(counts_of(counts@).take(i + 1).drop_last() =~= counts_of(counts@).take(i as int)); }
        if expr_eq(&counts[i].0, x) {
            proof {
                lemma_entry_prefix(counts_of(counts@), x@, i + 1);
            }
            return Some(i);
        }
        i = i + 1;
    }
    proof { assert(counts_of(counts@).take(counts.len() as int) =~= counts_of(counts@)); }
    None
}

proof fn lemma_entry_prefix(counts: Seq<(Term, nat)>, x: Term, k: int)
    requires
        0 <= k <= counts.len(),
        entry_index(counts.take(k), x) is Some,
    ensures
        entry_index(counts, x) == entry_index(counts.take(k), x),
    decreases counts.len() - k,
{
    if k < counts.len() {
        assert(counts.take(k + 1).drop_last() =~= counts.take(k));
        lemma_entry_prefix(counts, x, k + 1);
    } else {
        assert(counts.take(k) =~= counts);
    }
}

/// Each distinct candidate with how often it occurs.
fn tally_candidates(candidates: &Vec<Expr>) -> (r: Vec<(Expr, usize)>)
    ensures
        counts_of(r@) == tally(terms_of(candidates@)),
{
    let mut counts: Vec<(Expr, usize)> = Vec::new();
    let mut i: usize = 0;
    proof {
        lemma_terms_of(candidates@);
        assert(counts_of(counts@) =~= Seq::empty());
        assert(terms_of(candidates@.take(0)) =~= Seq::empty());
    }
    while i < candidates.len()
        invariant
            i <= candidates.len(),
            counts_of(counts@) == tally(terms_of(candidates@.take(i as int))),
        decreases candidates.len() - i,
    {
        let ghost pre = terms_of(candidates@.take(i as int));
        proof {
            assert(candidates@.take(i + 1).drop_last() =~= candidates@.take(i as int));
            assert(pre.push(term_of(candidates@[i as int])).drop_last() =~= pre);
            lemma_terms_of(candidates@.take(i as int));
            lemma_tally(pre);
        }
        match find_entry(&counts, &candidates[i]) {
            Some(j) => {
                proof { lemma_entry_index(counts_of(counts@), candidates@[i as int]@); }
                let c = counts[j].1 + 1;
                let entry = (copy_expr(&candidates[i]), c);
                let ghost before = counts@;
                counts.set(j, entry);
                proof {
                    assert(counts_of(counts@) =~= counts_of(before).update(j as int, (candidates@[i as int]@, c as nat)));
                }
            },
            None => {
                let ghost before = counts@;
                counts.push((copy_expr(&candidates[i]), 1));
                proof { assert(counts_of(counts@) =~= counts_of(before).push((candidates@[i as int]@, 1))); }
            },
        }
        i = i + 1;
    }
    proof { assert(candidates@.take(candidates.len() as int) =~= candidates@); }
    counts
}

/// The repeated, costly candidate whose sharing saves the most: by
/// `cost * (count - 1)`, then by cost, the last one on a tie.
pub fn best_candidate(candidates: &Vec<Expr>) -> (r: Option<Expr>)
    ensures
        option_term(r) == best_of(terms_of(candidates@)),
{
    let counts = tally_candidates(candidates);
    let mut best: Option<usize> = None;
    let mut best_key: (u128, u128) = (0, 0);
    let mut i: usize = 0;
    proof { assert(counts_of(counts@).take(0) =~= Seq::empty()); }
    while i < counts.len()
        invariant
            i <= counts.len(),
            match best {
                Some(j) => j < i && best_entry(counts_of(counts@).take(i as int)) == Some(counts_of(counts@)[j as int])
                    && best_key.0 == saving(counts_of(counts@)[j as int]).0 && best_key.1 == saving(
                    counts_of(counts@)[j as int],
                ).1,
                None => best_entry(counts_of(counts@).take(i as int)) is None,
            },
        decreases counts.len() - i,
    {
        proof { assert(counts_of(counts@).take(i + 1).drop_last() =~= counts_of(counts@).take(i as int)); }
        let cost = numeric_cost(&counts[i].0);
        let count = counts[i].1;
        if count >= 2 && cost > 0 {
            let a = cost as u128;
            let b = (count - 1) as u128;
            proof {
                assert(a * b <= 18446744073709551615u128 * 18446744073709551615u128) by (nonlinear_arith)
                    requires
                        a <= 18446744073709551615u128,
                        b <= 18446744073709551615u128,
                ;
            }
            let key: (u128, u128) = (a * b, a);
            proof {
                assert(cost > 0 ==> cost_of(counts@[i as int].0@) > 0);
            }
            let better = match best {
                None => true,
                Some(_) => best_key.0 < key.0 || (best_key.0 == key.0 && best_key.1 <= key.1),
            };
            if better {
                best = Some(i);
                best_key = key;
            }
        } else {
            proof {
                assert(!eligible(counts_of(counts@)[i as int]));
            }
        }
        i = i + 1;
    }
    proof { assert(counts_of(counts@).take(counts.len() as int) =~= counts_of(counts@)); }
    match best {
        Some(j) => Some(copy_expr(&counts[j].0)),
        None => None,
    }
}


/// `t` with every outermost occurrence of `needle` replaced by `with`.
pub open spec fn swapped(t: Term, needle: Term, with: Term) -> Term
    decreases t,
{
    if t == needle {
        with
    } else {
        match t {
            Term::Primitive { op, args } => Term::Primitive { op, args: swapped_all(args, needle, with) },
            Term::Call { callee, args } => Term::Call { callee, args: swapped_all(args, needle, with) },
            Term::If { condition, then_branch, else_branch } => Term::If {
                condition: Box::new(swapped(*condition, needle, with)),
                then_branch: Box::new(swapped(*then_branch, needle, with)),
                else_branch: Box::new(swapped(*else_branch, needle, with)),
            },
            Term::Let { bindings, body } => Term::Let {
                bindings: swapped_bindings(bindings, needle, with),
                body: Box::new(swapped(*body, needle, with)),
            },
            Term::Cons(h, tl) => Term::Cons(
                Box::new(swapped(*h, needle, with)),
                Box::new(swapped(*tl, needle, with)),
            ),
            Term::Car(v) => Term::Car(Box::new(swapped(*v, needle, with))),
            Term::Cdr(v) => Term::Cdr(Box::new(swapped(*v, needle, with))),
            Term::Null(v) => Term::Null(Box::new(swapped(*v, needle, with))),
            _ => t,
        }
    }
}

pub open spec fn swapped_all(s: Seq<Term>, needle: Term, with: Term) -> Seq<Term>
    decreases s,
{
    if s.len() == 0 {
        s
    } else {
        swapped_all(s.drop_last(), needle, with).push(swapped(s.last(), needle, with))
    }
}

pub open spec fn swapped_bindings(s: Seq<(Seq<char>, Term)>, needle: Term, with: Term) -> Seq<(Seq<char>, Term)>
    decreases s,
{
    if s.len() == 0 {
        s
    } else {
        swapped_bindings(s.drop_last(), needle, with).push((s.last().0, swapped(s.last().1, needle, with)))
    }
}

fn replace_expr_all(args: &Vec<Expr>, needle: &Expr, replacement: &Expr) -> (r: Vec<Expr>)
    ensures
        terms_of(r@) == swapped_all(terms_of(args@), needle@, replacement@),
    decreases args, 0nat,
{
    let mut out: Vec<Expr> = Vec::new();
    let mut i: usize = 0;
    while i < args.len()
        invariant
            i <= args.len(),
            terms_of(out@) == swapped_all(terms_of(args@.take(i as int)), needle@, replacement@),
        decreases args.len() - i,
    {
        proof {
            assert(decreases_to!(args => args@[i as int]));
            assert(args@.take(i + 1).drop_last() =~= args@.take(i as int));
            let pre = terms_of(args@.take(i as int));
            assert(pre.push(term_of(args@[i as int])).drop_last() =~= pre);
        }
        let x = replace_expr(&args[i], needle, replacement);
        proof { assert(out@.push(x).drop_last() =~= out@); }
        out.push(x);
        i = i + 1;
    }
    proof { assert(args@.take(args.len() as int) =~= args@); }
    out
}

fn replace_expr_bindings(bindings: &Vec<(String, Expr)>, needle: &Expr, replacement: &Expr) -> (r: Vec<(String, Expr)>)
    ensures
        binding_terms_of(r@) == swapped_bindings(binding_terms_of(bindings@), needle@, replacement@),
    decreases bindings, 0nat,
{
    let mut out: Vec<(String, Expr)> = Vec::new();
    let mut i: usize = 0;
    while i < bindings.len()
        invariant
            i <= bindings.len(),
            binding_terms_of(out@) == swapped_bindings(
                binding_terms_of(bindings@.take(i as int)),
                needle@,
                replacement@,
            ),
        decreases bindings.len() - i,
    {
        proof {
            assert(decreases_to!(bindings => bindings@[i as int].1));
            assert(bindings@.take(i + 1).drop_last() =~= bindings@.take(i as int));
            let pre = binding_terms_of(bindings@.take(i as int));
            let b = bindings@[i as int];
            assert(pre.push((b.0@, term_of(b.1))).drop_last() =~= pre);
        }
        let pair = (bindings[i].0.clone(), replace_expr(&bindings[i].1, needle, replacement));
        proof { assert(out@.push(pair).drop_last() =~= out@); }
        out.push(pair);
        i = i + 1;
    }
    proof { assert(bindings@.take(bindings.len() as int) =~= bindings@); }
    out
}

/// `e` with every outermost occurrence of `needle` replaced by a copy of
/// `replacement`.
pub fn replace_expr(e: &Expr, needle: &Expr, replacement: &Expr) -> (r: Expr)
    ensures
        r@ == swapped(e@, needle@, replacement@),
    decreases e,
{
    if expr_eq(e, needle) {
        return copy_expr(replacement);
    }
    match e {
        Expr::Primitive { op, args } => Expr::Primitive { op: *op, args: replace_expr_all(args, needle, replacement) },
        Expr::Call { callee, args } => Expr::Call {
            callee: callee.clone(),
            args: replace_expr_all(args, needle, replacement),
        },
        Expr::If { condition, then_branch, else_branch } => Expr::If {
            condition: Box::new(replace_expr(condition, needle, replacement)),
            then_branch: Box::new(replace_expr(then_branch, needle, replacement)),
            else_branch: Box::new(replace_expr(else_branch, needle, replacement)),
        },
        Expr::Let { bindings, body } => Expr::Let {
            bindings: replace_expr_bindings(bindings, needle, replacement),
            body: Box::new(replace_expr(body, needle, replacement)),
        },
        Expr::Cons(h, t) => Expr::Cons(
            Box::new(replace_expr(h, needle, replacement)),
            Box::new(replace_expr(t, needle, replacement)),
        ),
        Expr::Car(v) => Expr::Car(Box::new(replace_expr(v, needle, replacement))),
        Expr::Cdr(v) => Expr::Cdr(Box::new(replace_expr(v, needle, replacement))),
        Expr::Null(v) => Expr::Null(Box::new(replace_expr(v, needle, replacement))),
        other => copy_expr(other),
    }
}

/// The number of primitive operations anywhere in `t`.
pub open spec fn prim_count(t: Term) -> nat
    decreases t,
{
    match t {
        Term::Primitive { args, .. } => 1 + prim_counts(args),
        Term::Call { args, .. } => prim_counts(args),
        Term::If { condition, then_branch, else_branch } => prim_count(*condition) + prim_count(*then_branch)
            + prim_count(*else_branch),
        Term::Let { bindings, body } => prim_counts_bindings(bindings) + prim_count(*body),
        Term::Cons(h, tl) => prim_count(*h) + prim_count(*tl),
        Term::Car(v) | Term::Cdr(v) | Term::Null(v) => prim_count(*v),
        _ => 0,
    }
}

pub open spec fn prim_counts(s: Seq<Term>) -> nat
    decreases s,
{
    if s.len() == 0 {
        0
    } else {
        prim_counts(s.drop_last()) + prim_count(s.last())
    }
}

pub open spec fn prim_counts_bindings(s: Seq<(Seq<char>, Term)>) -> nat
    decreases s,
{
    if s.len() == 0 {
        0
    } else {
        prim_counts_bindings(s.drop_last()) + prim_count(s.last().1)
    }
}

/// `x` is `t` or one of its subterms.
pub open spec fn occurs(t: Term, x: Term) -> bool
    decreases t,
{
    t == x || match t {
        Term::Primitive { args, .. } | Term::Call { args, .. } => occurs_any(args, x),
        Term::If { condition, then_branch, else_branch } => occurs(*condition, x) || occurs(*then_branch, x)
            || occurs(*else_branch, x),
        Term::Let { bindings, body } => occurs_bindings(bindings, x) || occurs(*body, x),
        Term::Cons(h, tl) => occurs(*h, x) || occurs(*tl, x),
        Term::Car(v) | Term::Cdr(v) | Term::Null(v) => occurs(*v, x),
        _ => false,
    }
}

pub open spec fn occurs_any(s: Seq<Term>, x: Term) -> bool
    decreases s,
{
    s.len() > 0 && (occurs_any(s.drop_last(), x) || occurs(s.last(), x))
}

pub open spec fn occurs_bindings(s: Seq<(Seq<char>, Term)>, x: Term) -> bool
    decreases s,
{
    s.len() > 0 && (occurs_bindings(s.drop_last(), x) || occurs(s.last().1, x))
}

/// Replacing a term by a variable never adds primitives, and replacing one
/// that occurs and holds a primitive removes some.
pub proof fn lemma_swap_prims(t: Term, needle: Term, name: Seq<char>)
    ensures
        prim_count(swapped(t, needle, Term::Var(name))) <= prim_count(t),
        occurs(t, needle) && prim_count(needle) > 0 ==> prim_count(swapped(t, needle, Term::Var(name))) < prim_count(t),
    decreases t,
{
    if t != needle {
        match t {
            Term::Primitive { args, .. } | Term::Call { args, .. } => lemma_swap_prims_all(args, needle, name),
            Term::If { condition, then_branch, else_branch } => {
                lemma_swap_prims(*condition, needle, name);
                lemma_swap_prims(*then_branch, needle, name);
                lemma_swap_prims(*else_branch, needle, name);
            },
            Term::Let { bindings, body } => {
                lemma_swap_prims_bindings(bindings, needle, name);
                lemma_swap_prims(*body, needle, name);
            },
            Term::Cons(h, tl) => {
                lemma_swap_prims(*h, needle, name);
                lemma_swap_prims(*tl, needle, name);
            },
            Term::Car(v) | Term::Cdr(v) | Term::Null(v) => lemma_swap_prims(*v, needle, name),
            _ => {},
        }
    }
}

pub proof fn lemma_swap_prims_all(s: Seq<Term>, needle: Term, name: Seq<char>)
    ensures
        prim_counts(swapped_all(s, needle, Term::Var(name))) <= prim_counts(s),
        occurs_any(s, needle) && prim_count(needle) > 0 ==> prim_counts(swapped_all(s, needle, Term::Var(name)))
            < prim_counts(s),
    decreases s,
{
    if s.len() > 0 {
        lemma_swap_prims_all(s.drop_last(), needle, name);
        lemma_swap_prims(s.last(), needle, name);
        let r = swapped_all(s.drop_last(), needle, Term::Var(name));
        assert(swapped_all(s, needle, Term::Var(name)).drop_last() =~= r);
    }
}

pub proof fn lemma_swap_prims_bindings(s: Seq<(Seq<char>, Term)>, needle: Term, name: Seq<char>)
    ensures
        prim_counts_bindings(swapped_bindings(s, needle, Term::Var(name))) <= prim_counts_bindings(s),
        occurs_bindings(s, needle) && prim_count(needle) > 0 ==> prim_counts_bindings(
            swapped_bindings(s, needle, Term::Var(name)),
        ) < prim_counts_bindings(s),
    decreases s,
{
    if s.len() > 0 {
        lemma_swap_prims_bindings(s.drop_last(), needle, name);
        lemma_swap_prims(s.last().1, needle, name);
        let r = swapped_bindings(s.drop_last(), needle, Term::Var(name));
        assert(swapped_bindings(s, needle, Term::Var(name)).drop_last() =~= r);
    }
}

/// Every collected numeric tree occurs in `t`, is total, and costs
/// something.
pub proof fn lemma_numeric_trees(t: Term)
    ensures
        forall|i: int| 0 <= i < numeric_trees(t).len() ==> {
            let x = #[trigger] numeric_trees(t)[i];
            occurs(t, x) && total_numeric(x) && cost_of(x) > 0
        },
    decreases t,
{
    let head: Seq<Term> = if total_numeric(t) && cost_of(t) > 0 {
        seq![t]
    } else {
        Seq::empty()
    };
    match t {
        Term::Primitive { args, .. } | Term::Call { args, .. } => {
            lemma_numeric_trees_all(args);
            assert forall|i: int| 0 <= i < numeric_trees(t).len() implies {
                let x = #[trigger] numeric_trees(t)[i];
                occurs(t, x) && total_numeric(x) && cost_of(x) > 0
            } by {
                if i >= head.len() {
                    assert(numeric_trees(t)[i] == numeric_trees_all(args)[i - head.len()]);
                }
            }
        },
        Term::If { condition, then_branch, else_branch } => {
            lemma_numeric_trees(*condition);
            lemma_numeric_trees(*then_branch);
            lemma_numeric_trees(*else_branch);
            let a = numeric_trees(*condition);
            let b = numeric_trees(*then_branch);
            let c = numeric_trees(*else_branch);
            assert forall|i: int| 0 <= i < numeric_trees(t).len() implies {
                let x = #[trigger] numeric_trees(t)[i];
                occurs(t, x) && total_numeric(x) && cost_of(x) > 0
            } by {
                let j = i - head.len();
                if i >= head.len() {
                    if j < a.len() {
                        assert(numeric_trees(t)[i] == a[j]);
                    } else if j < a.len() + b.len() {
                        assert(numeric_trees(t)[i] == b[j - a.len()]);
                    } else {
                        assert(numeric_trees(t)[i] == c[j - a.len() - b.len()]);
                    }
                }
            }
        },
        Term::Let { bindings, body } => {
            lemma_numeric_trees_bindings(bindings);
            lemma_numeric_trees(*body);
            let a = numeric_trees_bindings(bindings);
            let b = numeric_trees(*body);
            assert forall|i: int| 0 <= i < numeric_trees(t).len() implies {
                let x = #[trigger] numeric_trees(t)[i];
                occurs(t, x) && total_numeric(x) && cost_of(x) > 0
            } by {
                let j = i - head.len();
                if i >= head.len() {
                    if j < a.len() {
                        assert(numeric_trees(t)[i] == a[j]);
                    } else {
                        assert(numeric_trees(t)[i] == b[j - a.len()]);
                    }
                }
            }
        },
        Term::Cons(h, tl) => {
            lemma_numeric_trees(*h);
            lemma_numeric_trees(*tl);
            let a = numeric_trees(*h);
            let b = numeric_trees(*tl);
            assert forall|i: int| 0 <= i < numeric_trees(t).len() implies {
                let x = #[trigger] numeric_trees(t)[i];
                occurs(t, x) && total_numeric(x) && cost_of(x) > 0
            } by {
                let j = i - head.len();
                if i >= head.len() {
                    if j < a.len() {
                        assert(numeric_trees(t)[i] == a[j]);
                    } else {
                        assert(numeric_trees(t)[i] == b[j - a.len()]);
                    }
                }
            }
        },
        Term::Car(v) | Term::Cdr(v) | Term::Null(v) => {
            lemma_numeric_trees(*v);
            assert forall|i: int| 0 <= i < numeric_trees(t).len() implies {
                let x = #[trigger] numeric_trees(t)[i];
                occurs(t, x) && total_numeric(x) && cost_of(x) > 0
            } by {
                if i >= head.len() {
                    assert(numeric_trees(t)[i] == numeric_trees(*v)[i - head.len()]);
                }
            }
        },
        _ => {},
    }
}

pub proof fn lemma_numeric_trees_all(s: Seq<Term>)
    ensures
        forall|i: int| 0 <= i < numeric_trees_all(s).len() ==> {
            let x = #[trigger] numeric_trees_all(s)[i];
            occurs_any(s, x) && total_numeric(x) && cost_of(x) > 0
        },
    decreases s,
{
    if s.len() > 0 {
        lemma_numeric_trees_all(s.drop_last());
        lemma_numeric_trees(s.last());
        let a = numeric_trees_all(s.drop_last());
        let b = numeric_trees(s.last());
        assert forall|i: int| 0 <= i < numeric_trees_all(s).len() implies {
            let x = #[trigger] numeric_trees_all(s)[i];
            occurs_any(s, x) && total_numeric(x) && cost_of(x) > 0
        } by {
            if i < a.len() {
                assert(numeric_trees_all(s)[i] == a[i]);
            } else {
                assert(numeric_trees_all(s)[i] == b[i - a.len()]);
            }
        }
    }
}

pub proof fn lemma_numeric_trees_bindings(s: Seq<(Seq<char>, Term)>)
    ensures
        forall|i: int| 0 <= i < numeric_trees_bindings(s).len() ==> {
            let x = #[trigger] numeric_trees_bindings(s)[i];
            occurs_bindings(s, x) && total_numeric(x) && cost_of(x) > 0
        },
    decreases s,
{
    if s.len() > 0 {
        lemma_numeric_trees_bindings(s.drop_last());
        lemma_numeric_trees(s.last().1);
        let a = numeric_trees_bindings(s.drop_last());
        let b = numeric_trees(s.last().1);
        assert forall|i: int| 0 <= i < numeric_trees_bindings(s).len() implies {
            let x = #[trigger] numeric_trees_bindings(s)[i];
            occurs_bindings(s, x) && total_numeric(x) && cost_of(x) > 0
        } by {
            if i < a.len() {
                assert(numeric_trees_bindings(s)[i] == a[i]);
            } else {
                assert(numeric_trees_bindings(s)[i] == b[i - a.len()]);
            }
        }
    }
}


/// The candidate to share first in `t` occurs in it, is a total numeric
/// tree, and holds a primitive.
pub proof fn lemma_best_candidate(t: Term)
    ensures
        best_of(numeric_trees(t)) matches Some(c) ==> occurs(t, c) && total_numeric(c) && prim_count(c) > 0,
{
    let s = numeric_trees(t);
    lemma_best_entry(tally(s));
    lemma_tally(s);
    lemma_numeric_trees(t);
    if let Some(e) = best_entry(tally(s)) {
        let k = choose|k: int| 0 <= k < tally(s).len() && tally(s)[k] == e;
        assert(s.contains(tally(s)[k].0));
        let i = choose|i: int| 0 <= i < s.len() && s[i] == e.0;
        assert(occurs(t, s[i]) && total_numeric(s[i]) && cost_of(s[i]) > 0);
    }
}

/// Hoist the best candidate of `cur` into a fresh binding, again and again,
/// until no candidate is repeated. Each round removes a primitive.
pub open spec fn hoisted(cur: Term, bs: Seq<(Seq<char>, Term)>, st: FreshState) -> (
    Term,
    Seq<(Seq<char>, Term)>,
    FreshState,
)
    decreases prim_count(cur),
{
    match best_of(numeric_trees(cur)) {
        None => (cur, bs, st),
        Some(c) => {
            let (local, s1) = take_local(st);
            let next = swapped(cur, c, Term::Var(local));
            if prim_count(next) < prim_count(cur) {
                hoisted(next, bs.push((local, c)), s1)
            } else {
                (cur, bs, st)
            }
        },
    }
}

/// `inner` with its repeated numeric work hoisted into a `let`.
pub open spec fn hoist_all(inner: Term, st: FreshState) -> (Term, FreshState) {
    let (cur, bs, s1) = hoisted(inner, Seq::empty(), st);
    if bs.len() == 0 {
        (cur, s1)
    } else {
        (Term::Let { bindings: bs, body: Box::new(cur) }, s1)
    }
}

/// Sharing applied bottom-up: children first, then the node itself.
pub open spec fn shared(t: Term, st: FreshState) -> (Term, FreshState)
    decreases t,
{
    match t {
        Term::Primitive { op, args } => {
            let (a, s1) = shared_all(args, st);
            hoist_all(Term::Primitive { op, args: a }, s1)
        },
        Term::Call { callee, args } => {
            let (a, s1) = shared_all(args, st);
            hoist_all(Term::Call { callee, args: a }, s1)
        },
        Term::If { condition, then_branch, else_branch } => {
            let (c, s1) = shared(*condition, st);
            let (a, s2) = shared(*then_branch, s1);
            let (b, s3) = shared(*else_branch, s2);
            hoist_all(Term::If { condition: Box::new(c), then_branch: Box::new(a), else_branch: Box::new(b) }, s3)
        },
        Term::Let { bindings, body } => {
            let (bs, s1) = shared_bindings(bindings, st);
            let (b, s2) = shared(*body, s1);
            hoist_all(Term::Let { bindings: bs, body: Box::new(b) }, s2)
        },
        Term::Cons(h, tl) => {
            let (x, s1) = shared(*h, st);
            let (y, s2) = shared(*tl, s1);
            hoist_all(Term::Cons(Box::new(x), Box::new(y)), s2)
        },
        Term::Car(v) => {
            let (x, s1) = shared(*v, st);
            hoist_all(Term::Car(Box::new(x)), s1)
        },
        Term::Cdr(v) => {
            let (x, s1) = shared(*v, st);
            hoist_all(Term::Cdr(Box::new(x)), s1)
        },
        Term::Null(v) => {
            let (x, s1) = shared(*v, st);
            hoist_all(Term::Null(Box::new(x)), s1)
        },
        _ => hoist_all(t, st),
    }
}

pub open spec fn shared_all(s: Seq<Term>, st: FreshState) -> (Seq<Term>, FreshState)
    decreases s,
{
    if s.len() == 0 {
        (s, st)
    } else {
        let (front, s1) = shared_all(s.drop_last(), st);
        let (x, s2) = shared(s.last(), s1);
        (front.push(x), s2)
    }
}

pub open spec fn shared_bindings(s: Seq<(Seq<char>, Term)>, st: FreshState) -> (
    Seq<(Seq<char>, Term)>,
    FreshState,
)
    decreases s,
{
    if s.len() == 0 {
        (s, st)
    } else {
        let (front, s1) = shared_bindings(s.drop_last(), st);
        let (x, s2) = shared(s.last().1, s1);
        (front.push((s.last().0, x)), s2)
    }
}

/// Only total numeric trees are ever hoisted: never a division, which could
/// raise an error ahead of a branch that avoided it, and never a call, which
/// could change termination.
pub proof fn lemma_hoisted_total(cur: Term, bs: Seq<(Seq<char>, Term)>, st: FreshState)
    requires
        forall|i: int| 0 <= i < bs.len() ==> total_numeric(#[trigger] bs[i].1),
    ensures
        forall|i: int| 0 <= i < hoisted(cur, bs, st).1.len() ==> total_numeric(#[trigger] hoisted(cur, bs, st).1[i].1),
    decreases prim_count(cur),
{
    lemma_best_candidate(cur);
    if let Some(c) = best_of(numeric_trees(cur)) {
        let (local, s1) = take_local(st);
        let next = swapped(cur, c, Term::Var(local));
        if prim_count(next) < prim_count(cur) {
            let nb = bs.push((local, c));
            assert forall|i: int| 0 <= i < nb.len() implies total_numeric(#[trigger] nb[i].1) by {
                if i < bs.len() {
                    assert(nb[i] == bs[i]);
                }
            }
            lemma_hoisted_total(next, nb, s1);
            assert(hoisted(cur, bs, st) == hoisted(next, nb, s1));
        } else {
            assert(hoisted(cur, bs, st).1 == bs);
        }
    } else {
        assert(hoisted(cur, bs, st).1 == bs);
    }
}

fn share_all(args: &Vec<Expr>, fresh: &mut Fresh) -> (r: Vec<Expr>)
    requires
        old(fresh).wf(),
    ensures
        final(fresh).wf(),
        (terms_of(r@), final(fresh)@) == shared_all(terms_of(args@), old(fresh)@),
    decreases args, 0nat,
{
    let ghost start = fresh@;
    let mut out: Vec<Expr> = Vec::new();
    let mut i: usize = 0;
    while i < args.len()
        invariant
            i <= args.len(),
            fresh.wf(),
            (terms_of(out@), fresh@) == shared_all(terms_of(args@.take(i as int)), start),
        decreases args.len() - i,
    {
        proof {
            assert(decreases_to!(args => args@[i as int]));
            assert(args@.take(i + 1).drop_last() =~= args@.take(i as int));
            let pre = terms_of(args@.take(i as int));
            assert(pre.push(term_of(args@[i as int])).drop_last() =~= pre);
        }
        let x = share(&args[i], fresh);
        proof { assert(out@.push(x).drop_last() =~= out@); }
        out.push(x);
        i = i + 1;
    }
    proof { assert(args@.take(args.len() as int) =~= args@); }
    out
}

/// Hoist the repeated numeric work of `inner` into a `let`.
fn hoist(inner: Expr, fresh: &mut Fresh) -> (r: Expr)
    requires
        old(fresh).wf(),
    ensures
        final(fresh).wf(),
        (r@, final(fresh)@) == hoist_all(inner@, old(fresh)@),
{
    let ghost goal = hoisted(inner@, Seq::empty(), fresh@);
    let mut current = inner;
    let mut bindings: Vec<(String, Expr)> = Vec::new();
    proof { assert(binding_terms_of(bindings@) =~= Seq::empty()); }
    let mut done = false;
    while !done
        invariant
            fresh.wf(),
            goal == if done {
                (current@, binding_terms_of(bindings@), fresh@)
            } else {
                hoisted(current@, binding_terms_of(bindings@), fresh@)
            },
        decreases prim_count(current@) + if done {
            0int
        } else {
            1int
        },
    {
        let mut candidates: Vec<Expr> = Vec::new();
        proof { assert(terms_of(candidates@) =~= Seq::empty()); }
        collect_numeric_trees(&current, &mut candidates);
        proof { assert(terms_of(candidates@) =~= numeric_trees(current@)); }
        match best_candidate(&candidates) {
            None => {
                done = true;
            },
            Some(candidate) => {
                let local = fresh.local();
                let var = Expr::Var(local.clone());
                let next = replace_expr(&current, &candidate, &var);
                proof {
                    lemma_best_candidate(current@);
                    lemma_swap_prims(current@, candidate@, local@);
                }
                let pair = (local, candidate);
                proof { assert(bindings@.push(pair).drop_last() =~= bindings@); }
                bindings.push(pair);
                current = next;
            },
        }
    }
    proof { lemma_binding_terms_of(bindings@); }
    if bindings.len() == 0 {
        current
    } else {
        Expr::Let { bindings, body: Box::new(current) }
    }
}

/// Sharing applied bottom-up.
#[verifier::loop_isolation(false)]
fn share(e: &Expr, fresh: &mut Fresh) -> (r: Expr)
    requires
        old(fresh).wf(),
    ensures
        final(fresh).wf(),
        (r@, final(fresh)@) == shared(e@, old(fresh)@),
    decreases e,
{
    let inner = match e {
        Expr::Primitive { op, args } => Expr::Primitive { op: *op, args: share_all(args, fresh) },
        Expr::Call { callee, args } => Expr::Call { callee: callee.clone(), args: share_all(args, fresh) },
        Expr::If { condition, then_branch, else_branch } => {
            let c = share(condition, fresh);
            let a = share(then_branch, fresh);
            let b = share(else_branch, fresh);
            Expr::If { condition: Box::new(c), then_branch: Box::new(a), else_branch: Box::new(b) }
        },
        Expr::Let { bindings, body } => {
            let ghost start = fresh@;
            let mut out: Vec<(String, Expr)> = Vec::new();
            let mut i: usize = 0;
            while i < bindings.len()
                invariant
                    i <= bindings.len(),
                    fresh.wf(),
                    (binding_terms_of(out@), fresh@) == shared_bindings(
                        binding_terms_of(bindings@.take(i as int)),
                        start,
                    ),
                decreases bindings.len() - i,
            {
                proof {
                    assert(decreases_to!(e => bindings@[i as int].1));
                    assert(bindings@.take(i + 1).drop_last() =~= bindings@.take(i as int));
                    let pre = binding_terms_of(bindings@.take(i as int));
                    let b = bindings@[i as int];
                    assert(pre.push((b.0@, term_of(b.1))).drop_last() =~= pre);
                }
                let pair = (bindings[i].0.clone(), share(&bindings[i].1, fresh));
                proof { assert(out@.push(pair).drop_last() =~= out@); }
                out.push(pair);
                i = i + 1;
            }
            proof { assert(bindings@.take(bindings.len() as int) =~= bindings@); }
            let b = share(body, fresh);
            Expr::Let { bindings: out, body: Box::new(b) }
        },
        Expr::Cons(h, t) => {
            let x = share(h, fresh);
            let y = share(t, fresh);
            Expr::Cons(Box::new(x), Box::new(y))
        },
        Expr::Car(v) => Expr::Car(Box::new(share(v, fresh))),
        Expr::Cdr(v) => Expr::Cdr(Box::new(share(v, fresh))),
        Expr::Null(v) => Expr::Null(Box::new(share(v, fresh))),
        other => copy_expr(other),
    };
    hoist(inner, fresh)
}

/// Introduce `let` bindings for repeated, total numeric expression trees.
/// Division and calls are excluded so moving the calculation ahead of a
/// branch cannot introduce a new error or change termination.
pub fn share_common(expr: Expr, fresh: &mut Fresh) -> (r: Expr)
    requires
        old(fresh).wf(),
    ensures
        final(fresh).wf(),
        (r@, final(fresh)@) == shared(expr@, old(fresh)@),
{
    share(&expr, fresh)
}


// ---------------------------------------------------------------------------
// The whole program
// ---------------------------------------------------------------------------

pub open spec fn with_body(d: DefTerm, body: Term) -> DefTerm {
    DefTerm { name: d.name, params: d.params, body }
}

/// The definitions worth inlining, in order.
pub open spec fn helpers_of(defs: Seq<DefTerm>) -> Seq<DefTerm>
    decreases defs.len(),
{
    if defs.len() == 0 {
        defs
    } else if is_inline_candidate(defs.last()) {
        helpers_of(defs.drop_last()).push(defs.last())
    } else {
        helpers_of(defs.drop_last())
    }
}

/// Every body with the helpers inlined, in order.
pub open spec fn inline_defs(defs: Seq<DefTerm>, helpers: Seq<DefTerm>, st: FreshState) -> (Seq<DefTerm>, FreshState)
    decreases defs.len(),
{
    if defs.len() == 0 {
        (defs, st)
    } else {
        let (front, s1) = inline_defs(defs.drop_last(), helpers, st);
        let (b, s2) = inlined(defs.last().body, helpers, s1);
        (front.push(with_body(defs.last(), b)), s2)
    }
}

/// Every body with its tail recurrence unrolled, in order.
pub open spec fn unroll_defs(defs: Seq<DefTerm>, factor: nat, st: FreshState) -> (Seq<DefTerm>, FreshState)
    decreases defs.len(),
{
    if defs.len() == 0 {
        (defs, st)
    } else {
        let (front, s1) = unroll_defs(defs.drop_last(), factor, st);
        let (b, s2) = unrolled(defs.last(), factor, s1);
        (front.push(with_body(defs.last(), b)), s2)
    }
}

/// A body settled, then with its repeated numeric work shared when `cse`.
pub open spec fn finished(t: Term, propagate: bool, cse: bool, st: FreshState) -> (Term, FreshState) {
    let b = settled(t, propagate, 4);
    if cse {
        shared(b, st)
    } else {
        (b, st)
    }
}

pub open spec fn finish_defs(defs: Seq<DefTerm>, propagate: bool, cse: bool, st: FreshState) -> (
    Seq<DefTerm>,
    FreshState,
)
    decreases defs.len(),
{
    if defs.len() == 0 {
        (defs, st)
    } else {
        let (front, s1) = finish_defs(defs.drop_last(), propagate, cse, st);
        let (b, s2) = finished(defs.last().body, propagate, cse, s1);
        (front.push(with_body(defs.last(), b)), s2)
    }
}

/// The whole optimizer: partial evaluation, reshaping, then inlining, tail
/// unrolling, settling and sharing, with one name supply threaded through,
/// definitions in order and the final expression last.
pub open spec fn optimized(p: ProgramTerm, o: Options) -> ProgramTerm {
    let p1 = reshaped(pevaled(p, o.peval as nat), o.shape);
    let st0 = FreshState { next: 0, used: program_names(p1).to_set() };
    let helpers = helpers_of(p1.definitions);
    let (defs1, body1, st1) = if o.inline_helpers && helpers.len() > 0 {
        let (d, s1) = inline_defs(p1.definitions, helpers, st0);
        match p1.body {
            Some(b) => {
                let (x, s2) = inlined(b, helpers, s1);
                (d, Some(x), s2)
            },
            None => (d, None, s1),
        }
    } else {
        (p1.definitions, p1.body, st0)
    };
    let (defs2, st2) = if o.tail_unroll > 1 {
        unroll_defs(defs1, o.tail_unroll as nat, st1)
    } else {
        (defs1, st1)
    };
    let (defs3, st3) = finish_defs(defs2, o.constant_propagation, o.common_subexpressions, st2);
    ProgramTerm {
        definitions: defs3,
        body: match body1 {
            Some(b) => Some(finished(b, o.constant_propagation, o.common_subexpressions, st3).0),
            None => None,
        },
    }
}

/// The definitions worth inlining, copied in order.
fn inline_helpers_of(definitions: &Vec<Definition>) -> (r: Vec<Definition>)
    ensures
        defs_of(r@) == helpers_of(defs_of(definitions@)),
{
    let mut out: Vec<Definition> = Vec::new();
    let mut i: usize = 0;
    proof { assert(defs_of(definitions@.take(0)) =~= Seq::empty()); }
    while i < definitions.len()
        invariant
            i <= definitions.len(),
            defs_of(out@) == helpers_of(defs_of(definitions@.take(i as int))),
        decreases definitions.len() - i,
    {
        proof {
            assert(defs_of(definitions@.take(i + 1)).drop_last() =~= defs_of(definitions@.take(i as int)));
        }
        if inline_candidate(&definitions[i]) {
            let d = copy_definition(&definitions[i]);
            proof { assert(defs_of(out@.push(d)) =~= defs_of(out@).push(d@)); }
            out.push(d);
        }
        i = i + 1;
    }
    proof { assert(definitions@.take(definitions.len() as int) =~= definitions@); }
    out
}

fn inline_definitions(definitions: &Vec<Definition>, helpers: &Vec<Definition>, fresh: &mut Fresh) -> (r: Vec<
    Definition,
>)
    requires
        old(fresh).wf(),
    ensures
        final(fresh).wf(),
        (defs_of(r@), final(fresh)@) == inline_defs(defs_of(definitions@), defs_of(helpers@), old(fresh)@),
{
    let ghost start = fresh@;
    let mut out: Vec<Definition> = Vec::new();
    let mut i: usize = 0;
    proof { assert(defs_of(definitions@.take(0)) =~= Seq::empty()); }
    while i < definitions.len()
        invariant
            i <= definitions.len(),
            fresh.wf(),
            (defs_of(out@), fresh@) == inline_defs(defs_of(definitions@.take(i as int)), defs_of(helpers@), start),
        decreases definitions.len() - i,
    {
        proof {
            assert(defs_of(definitions@.take(i + 1)).drop_last() =~= defs_of(definitions@.take(i as int)));
        }
        let d = &definitions[i];
        let body = inline_expr(&d.body, helpers, fresh);
        let nd = Definition { name: d.name.clone(), params: copy_names(&d.params), body };
        proof { assert(defs_of(out@.push(nd)) =~= defs_of(out@).push(nd@)); }
        out.push(nd);
        i = i + 1;
    }
    proof { assert(definitions@.take(definitions.len() as int) =~= definitions@); }
    out
}

fn unroll_definitions(definitions: &Vec<Definition>, factor: usize, fresh: &mut Fresh) -> (r: Vec<Definition>)
    requires
        old(fresh).wf(),
    ensures
        final(fresh).wf(),
        (defs_of(r@), final(fresh)@) == unroll_defs(defs_of(definitions@), factor as nat, old(fresh)@),
{
    let ghost start = fresh@;
    let mut out: Vec<Definition> = Vec::new();
    let mut i: usize = 0;
    proof { assert(defs_of(definitions@.take(0)) =~= Seq::empty()); }
    while i < definitions.len()
        invariant
            i <= definitions.len(),
            fresh.wf(),
            (defs_of(out@), fresh@) == unroll_defs(defs_of(definitions@.take(i as int)), factor as nat, start),
        decreases definitions.len() - i,
    {
        proof {
            assert(defs_of(definitions@.take(i + 1)).drop_last() =~= defs_of(definitions@.take(i as int)));
        }
        let d = &definitions[i];
        let body = unroll_tail_recurrence(d, factor, fresh);
        let nd = Definition { name: d.name.clone(), params: copy_names(&d.params), body };
        proof { assert(defs_of(out@.push(nd)) =~= defs_of(out@).push(nd@)); }
        out.push(nd);
        i = i + 1;
    }
    proof { assert(definitions@.take(definitions.len() as int) =~= definitions@); }
    out
}

/// Settle a body, then share its repeated numeric work when `cse` is set.
fn finish(body: Expr, propagate: bool, cse: bool, fresh: &mut Fresh) -> (r: Expr)
    requires
        old(fresh).wf(),
    ensures
        final(fresh).wf(),
        (r@, final(fresh)@) == finished(body@, propagate, cse, old(fresh)@),
{
    let b = settle(body, propagate);
    if cse {
        share_common(b, fresh)
    } else {
        b
    }
}

fn finish_definitions(definitions: &Vec<Definition>, propagate: bool, cse: bool, fresh: &mut Fresh) -> (r: Vec<
    Definition,
>)
    requires
        old(fresh).wf(),
    ensures
        final(fresh).wf(),
        (defs_of(r@), final(fresh)@) == finish_defs(defs_of(definitions@), propagate, cse, old(fresh)@),
{
    let ghost start = fresh@;
    let mut out: Vec<Definition> = Vec::new();
    let mut i: usize = 0;
    proof { assert(defs_of(definitions@.take(0)) =~= Seq::empty()); }
    while i < definitions.len()
        invariant
            i <= definitions.len(),
            fresh.wf(),
            (defs_of(out@), fresh@) == finish_defs(defs_of(definitions@.take(i as int)), propagate, cse, start),
        decreases definitions.len() - i,
    {
        proof {
            assert(defs_of(definitions@.take(i + 1)).drop_last() =~= defs_of(definitions@.take(i as int)));
        }
        let d = &definitions[i];
        let body = finish(copy_expr(&d.body), propagate, cse, fresh);
        let nd = Definition { name: d.name.clone(), params: copy_names(&d.params), body };
        proof { assert(defs_of(out@.push(nd)) =~= defs_of(out@).push(nd@)); }
        out.push(nd);
        i = i + 1;
    }
    proof { assert(definitions@.take(definitions.len() as int) =~= definitions@); }
    out
}

/// Run the whole optimizer. Partial evaluation goes first, on the program as
/// written; then shape, which can introduce a new definition for the other
/// passes to work on, and which every later pass preserves.
pub fn optimize(program: Program, options: Options) -> (r: Program)
    ensures
        r@ == optimized(program@, options),
        r.graphs == program.graphs,
{
    let program = crate::peval::apply(program, options.peval);
    let program = crate::shape::apply(program, options.shape);
    let mut fresh = Fresh::from_program(&program);
    let ghost p1 = program@;
    let Program { definitions, graphs, body } = program;
    let mut definitions = definitions;
    let mut body = body;
    if options.inline_helpers {
        let helpers = inline_helpers_of(&definitions);
        if helpers.len() > 0 {
            proof { lemma_defs_len(helpers@); }
            definitions = inline_definitions(&definitions, &helpers, &mut fresh);
            body = match body {
                Some(b) => Some(inline_expr(&b, &helpers, &mut fresh)),
                None => None,
            };
        } else {
            proof { lemma_defs_len(helpers@); }
        }
    }
    if options.tail_unroll > 1 {
        definitions = unroll_definitions(&definitions, options.tail_unroll, &mut fresh);
    }
    let definitions = finish_definitions(&definitions, options.constant_propagation, options.common_subexpressions, &mut fresh);
    let body = match body {
        Some(b) => Some(finish(b, options.constant_propagation, options.common_subexpressions, &mut fresh)),
        None => None,
    };
    Program { definitions, graphs, body }
}

proof fn lemma_defs_len(s: Seq<Definition>)
    ensures
        defs_of(s).len() == s.len(),
{
}

}
