//! What splitting a counted reduction into chain segments keeps: the
//! segments, combined in a balanced tree, compute what the whole chain
//! computes, because wrapping `+` and `*` re-associate.
use crate::ir::{DefTerm, Primitive, ProgramTerm, Term};
use crate::peval::find_def;
use crate::optimize::{names_in, names_in_all, names_in_bindings};
use crate::semantics::{
    all_used, bound_in, bound_names, number_of, bound_params, distinct_names, evaluated, evaluated_all, flag,
    lemma_all_used_each, lemma_distinct_find_def, lemma_evaluated_all_each, lemma_literals_fit_each,
    lemma_more_fuel, lemma_parallel_safe_each, lemma_unshadowed_each, literals_fit, literals_fit_all,
    literals_fit_bindings, parallel_safe, parallel_safe_all, parallel_safe_bindings, refines_bodies, unshadowed,
    unshadowed_all, unshadowed_bindings, well_scoped, within, wrapped, Value, binders_of, binders_of_all,
    binders_of_bindings,
};
use crate::shape::{
    balanced_body, balanced_def, substitute, substitute_all, substitute_bindings, chunked, combine_term, combiner_term, counter_scan, find_red, identity_term, position, range_of, reads_only,
    reads_only_all, reads_only_bindings, recognized, recognized_all, replacement, reshaped, rewrite, rewrite_all,
    rewrite_bindings, rewrite_definitions, segment, var_name, Bound, Generated, Guard, RedTerm, Shape,
};
use vstd::prelude::*;

verus! {

/// A reduction a call to itself can split: `f(i, n, acc)` stops once
/// `i > n` and otherwise continues with `f(i + 1, n, (OP acc element))`.
pub open spec fn segment_form(red: RedTerm) -> bool {
    &&& red.delta > 0
    &&& red.guard == Guard::Gt
    &&& red.counter == 0
    &&& red.accumulator == 2
    &&& red.bound == Bound::Param(1)
    &&& red.params.len() == 3
}

/// `f(i, n, acc) = if (> i n) then acc else f((+ i 1), n, (OP acc element))`,
/// with `i`, `n` and `acc` its three parameters.
pub open spec fn segment_body(d: DefTerm, red: RedTerm) -> bool {
    let p = d.params;
    match d.body {
        Term::If { condition, then_branch, else_branch } => {
            &&& *then_branch == Term::Var(p[2])
            &&& *condition == Term::Primitive { op: Primitive::Gt, args: seq![Term::Var(p[0]), Term::Var(p[1])] }
            &&& *else_branch == Term::Call {
                callee: d.name,
                args: seq![
                    Term::Primitive { op: Primitive::Add, args: seq![Term::Var(p[0]), Term::Number(1)] },
                    Term::Var(p[1]),
                    Term::Primitive { op: red.combiner, args: seq![Term::Var(p[2]), red.element] },
                ],
            }
        },
        _ => false,
    }
}

/// What a recognized reduction in segment form looks like.
pub proof fn lemma_segment_body(d: DefTerm, red: RedTerm)
    requires
        recognized(d) == Some(red),
        segment_form(red),
    ensures
        red.name == d.name,
        red.params == d.params,
        d.params[0] != d.params[1],
        d.params[0] != d.params[2],
        d.params[1] != d.params[2],
        red.combiner is Add || red.combiner is Mul,
        reads_only(red.element, d.params[0]),
        segment_body(d, red),
{
    reveal_with_fuel(counter_scan, 4);
    reveal_with_fuel(position, 4);
    let p = d.params;
    if let Term::If { condition, then_branch, else_branch } = d.body {
        if let Term::Call { callee, args } = *else_branch {
            let acc_name = var_name(*then_branch).unwrap();
            assert(position(p, acc_name) == Some(2int));
            assert(position(p.drop_last(), acc_name) is None);
            let (combiner, element) = combiner_term(args[2], p[2]).unwrap();
            if let Term::Primitive { op, args: sides } = *condition {
                if let Term::Var(bound_name) = sides[1] {
                    assert(position(p, bound_name) == Some(1int));
                }
                assert(sides =~= seq![Term::Var(p[0]), Term::Var(p[1])]);
            }
            assert(counter_scan(p, args, 2, 3) == Some(Some((0int, red.delta))));
            if let Term::Primitive { op: c, args: pair } = args[2] {
                assert(pair =~= seq![Term::Var(p[2]), element]);
            }
            if let Term::Primitive { op: c, args: st } = args[0] {
                assert(st =~= seq![Term::Var(p[0]), Term::Number(1)]);
            }
            assert(args =~= seq![
                Term::Primitive { op: Primitive::Add, args: seq![Term::Var(p[0]), Term::Number(1)] },
                Term::Var(p[1]),
                Term::Primitive { op: red.combiner, args: seq![Term::Var(p[2]), red.element] },
            ]);
        }
    }
}

// ---------------------------------------------------------------------------
// Wrapping arithmetic re-associates
// ---------------------------------------------------------------------------

/// `+` or `*` on two numbers, wrapped.
pub open spec fn combined(op: Primitive, x: int, y: int) -> int {
    if op is Mul {
        wrapped(x * y)
    } else {
        wrapped(x + y)
    }
}

/// The number `op` leaves unchanged: `1` for `*`, `0` for `+`.
pub open spec fn identity_of(op: Primitive) -> int {
    if op is Mul {
        1
    } else {
        0
    }
}

/// Numbers that differ by a multiple of 2^24 wrap alike.
proof fn lemma_wrapped_congruent(a: int, b: int, k: int)
    requires
        a == b + 16777216 * k,
    ensures
        wrapped(a) == wrapped(b),
{
    vstd::arithmetic::div_mod::lemma_mod_multiples_vanish(k, b + 8388608, 16777216);
}

/// A wrapped number differs from the number by a multiple of 2^24.
proof fn lemma_wrapped_offset(a: int) -> (k: int)
    ensures
        wrapped(a) == a + 16777216 * k,
{
    vstd::arithmetic::div_mod::lemma_fundamental_div_mod(a + 8388608, 16777216);
    -((a + 8388608) / 16777216)
}

/// Wrapping an operand first changes nothing.
proof fn lemma_combined_wrapped(op: Primitive, x: int, y: int)
    ensures
        combined(op, x, wrapped(y)) == combined(op, x, y),
        combined(op, wrapped(x), y) == combined(op, x, y),
{
    let k = lemma_wrapped_offset(y);
    let j = lemma_wrapped_offset(x);
    if op is Mul {
        assert(x * wrapped(y) == x * y + 16777216 * (x * k)) by (nonlinear_arith)
            requires
                wrapped(y) == y + 16777216 * k,
        ;
        lemma_wrapped_congruent(x * wrapped(y), x * y, x * k);
        assert(wrapped(x) * y == x * y + 16777216 * (j * y)) by (nonlinear_arith)
            requires
                wrapped(x) == x + 16777216 * j,
        ;
        lemma_wrapped_congruent(wrapped(x) * y, x * y, j * y);
    } else {
        lemma_wrapped_congruent(x + wrapped(y), x + y, k);
        lemma_wrapped_congruent(wrapped(x) + y, x + y, j);
    }
}

/// `+` and `*` re-associate under wrapping.
pub proof fn lemma_combined_associative(op: Primitive, x: int, y: int, z: int)
    ensures
        combined(op, x, combined(op, y, z)) == combined(op, combined(op, x, y), z),
{
    if op is Mul {
        lemma_combined_wrapped(op, x, y * z);
        lemma_combined_wrapped(op, x * y, z);
        assert(x * (y * z) == (x * y) * z) by (nonlinear_arith);
    } else {
        lemma_combined_wrapped(op, x, y + z);
        lemma_combined_wrapped(op, x + y, z);
    }
}

/// Combining with the identity only wraps.
proof fn lemma_combined_identity(op: Primitive, g: int)
    ensures
        combined(op, identity_of(op), g) == wrapped(g),
{
}

// ---------------------------------------------------------------------------
// An element reads only the counter
// ---------------------------------------------------------------------------

/// An expression that reads only `n` computes the same in two scopes that
/// agree on `n`.
proof fn lemma_reads_only_scope(
    defs: Seq<DefTerm>,
    t: Term,
    n: Seq<char>,
    e1: Map<Seq<char>, Value>,
    e2: Map<Seq<char>, Value>,
    fuel: nat,
)
    requires
        reads_only(t, n),
        e1.contains_key(n),
        e2.contains_key(n),
        e1[n] == e2[n],
    ensures
        evaluated(defs, t, e1, fuel) == evaluated(defs, t, e2, fuel),
    decreases t,
{
    match t {
        Term::Primitive { op, args } => {
            lemma_reads_only_each(args, n);
            if args.len() == 2 {
                lemma_reads_only_scope(defs, args[0], n, e1, e2, fuel);
                lemma_reads_only_scope(defs, args[1], n, e1, e2, fuel);
            }
        },
        Term::Call { callee, args } => lemma_reads_only_scope_all(defs, args, n, e1, e2, fuel),
        Term::If { condition, then_branch, else_branch } => {
            lemma_reads_only_scope(defs, *condition, n, e1, e2, fuel);
            lemma_reads_only_scope(defs, *then_branch, n, e1, e2, fuel);
            lemma_reads_only_scope(defs, *else_branch, n, e1, e2, fuel);
        },
        Term::Let { bindings, body } => {
            lemma_reads_only_scope_bindings(defs, bindings, n, e1, e2, fuel);
            if let Some(i1) = bound_in(defs, bindings, e1, fuel) {
                let i2 = bound_in(defs, bindings, e2, fuel).unwrap();
                lemma_reads_only_scope(defs, *body, n, i1, i2, fuel);
            }
        },
        Term::Cons(h, tl) => {
            lemma_reads_only_scope(defs, *h, n, e1, e2, fuel);
            lemma_reads_only_scope(defs, *tl, n, e1, e2, fuel);
        },
        Term::Car(v) => lemma_reads_only_scope(defs, *v, n, e1, e2, fuel),
        Term::Cdr(v) => lemma_reads_only_scope(defs, *v, n, e1, e2, fuel),
        Term::Null(v) => lemma_reads_only_scope(defs, *v, n, e1, e2, fuel),
        _ => {},
    }
}

proof fn lemma_reads_only_each(s: Seq<Term>, n: Seq<char>)
    requires
        reads_only_all(s, n),
    ensures
        forall|i: int| 0 <= i < s.len() ==> reads_only(#[trigger] s[i], n),
    decreases s.len(),
{
    if s.len() > 0 {
        lemma_reads_only_each(s.drop_last(), n);
        assert forall|i: int| 0 <= i < s.len() implies reads_only(#[trigger] s[i], n) by {
            if i < s.len() - 1 {
                assert(s.drop_last()[i] == s[i]);
            }
        }
    }
}

proof fn lemma_reads_only_scope_all(
    defs: Seq<DefTerm>,
    s: Seq<Term>,
    n: Seq<char>,
    e1: Map<Seq<char>, Value>,
    e2: Map<Seq<char>, Value>,
    fuel: nat,
)
    requires
        reads_only_all(s, n),
        e1.contains_key(n),
        e2.contains_key(n),
        e1[n] == e2[n],
    ensures
        evaluated_all(defs, s, e1, fuel) == evaluated_all(defs, s, e2, fuel),
    decreases s,
{
    if s.len() > 0 {
        lemma_reads_only_scope_all(defs, s.drop_last(), n, e1, e2, fuel);
        lemma_reads_only_scope(defs, s.last(), n, e1, e2, fuel);
    }
}

proof fn lemma_reads_only_scope_bindings(
    defs: Seq<DefTerm>,
    s: Seq<(Seq<char>, Term)>,
    n: Seq<char>,
    e1: Map<Seq<char>, Value>,
    e2: Map<Seq<char>, Value>,
    fuel: nat,
)
    requires
        reads_only_bindings(s, n),
        e1.contains_key(n),
        e2.contains_key(n),
        e1[n] == e2[n],
    ensures
        bound_in(defs, s, e1, fuel) is Some <==> bound_in(defs, s, e2, fuel) is Some,
        bound_in(defs, s, e1, fuel) matches Some(i1) ==> i1.contains_key(n) && bound_in(defs, s, e2, fuel)->Some_0.contains_key(
            n,
        ) && i1[n] == bound_in(defs, s, e2, fuel)->Some_0[n],
    decreases s,
{
    if s.len() > 0 {
        lemma_reads_only_scope_bindings(defs, s.drop_last(), n, e1, e2, fuel);
        if let Some(i1) = bound_in(defs, s.drop_last(), e1, fuel) {
            let i2 = bound_in(defs, s.drop_last(), e2, fuel).unwrap();
            lemma_reads_only_scope(defs, s.last().1, n, i1, i2, fuel);
        }
    }
}

// ---------------------------------------------------------------------------
// Running a segment-form reduction
// ---------------------------------------------------------------------------

/// The parameters bound to a counter, a bound and an accumulator.
pub open spec fn state(d: DefTerm, i: int, hi: int, a: Value) -> Map<Seq<char>, Value> {
    bound_params(d.params, seq![Value::Num(i), Value::Num(hi), a])
}

/// What the reduction's body computes from that state.
pub open spec fn run(defs: Seq<DefTerm>, d: DefTerm, i: int, hi: int, a: Value, fuel: nat) -> Option<Value> {
    evaluated(defs, d.body, state(d, i, hi, a), fuel)
}

/// The element at counter `i`.
pub open spec fn element_at(defs: Seq<DefTerm>, d: DefTerm, red: RedTerm, i: int, fuel: nat) -> Option<Value> {
    evaluated(defs, red.element, map![d.params[0] => Value::Num(i)], fuel)
}

/// Everything a segment-form reduction's run rests on.
pub open spec fn segment_setup(defs: Seq<DefTerm>, d: DefTerm, red: RedTerm) -> bool {
    &&& find_def(defs, d.name) == Some(d)
    &&& recognized(d) == Some(red)
    &&& segment_form(red)
}

proof fn lemma_state(d: DefTerm, i: int, hi: int, a: Value)
    requires
        d.params.len() == 3,
        d.params[0] != d.params[1],
        d.params[0] != d.params[2],
        d.params[1] != d.params[2],
    ensures
        state(d, i, hi, a).contains_key(d.params[0]),
        state(d, i, hi, a).contains_key(d.params[1]),
        state(d, i, hi, a).contains_key(d.params[2]),
        state(d, i, hi, a)[d.params[0]] == Value::Num(i),
        state(d, i, hi, a)[d.params[1]] == Value::Num(hi),
        state(d, i, hi, a)[d.params[2]] == a,
{
    reveal_with_fuel(bound_params, 4);
    let vs = seq![Value::Num(i), Value::Num(hi), a];
    assert(vs.drop_last() =~= seq![Value::Num(i), Value::Num(hi)]);
    assert(vs.drop_last().drop_last() =~= seq![Value::Num(i)]);
    assert(vs.drop_last().drop_last().drop_last() =~= Seq::<Value>::empty());
}

/// Three arguments have values exactly when each has one.
proof fn lemma_evaluated_three(defs: Seq<DefTerm>, s: Seq<Term>, env: Map<Seq<char>, Value>, fuel: nat)
    requires
        s.len() == 3,
    ensures
        evaluated_all(defs, s, env, fuel) == match (
            evaluated(defs, s[0], env, fuel),
            evaluated(defs, s[1], env, fuel),
            evaluated(defs, s[2], env, fuel),
        ) {
            (Some(x), Some(y), Some(z)) => Some(seq![x, y, z]),
            _ => None,
        },
{
    let s2 = s.drop_last();
    let s1 = s2.drop_last();
    let s0 = s1.drop_last();
    assert(s0.len() == 0);
    assert(s1.last() == s[0]);
    assert(s2.last() == s[1]);
    assert(evaluated_all(defs, s0, env, fuel) == Some(Seq::<Value>::empty()));
    let r1 = evaluated_all(defs, s1, env, fuel);
    let r2 = evaluated_all(defs, s2, env, fuel);
    if let (Some(x), Some(y), Some(z)) = (
        evaluated(defs, s[0], env, fuel),
        evaluated(defs, s[1], env, fuel),
        evaluated(defs, s[2], env, fuel),
    ) {
        assert(r1 == Some(Seq::<Value>::empty().push(x)));
        assert(r2 == Some(Seq::<Value>::empty().push(x).push(y)));
        assert(Seq::<Value>::empty().push(x).push(y).push(z) =~= seq![x, y, z]);
    }
}

/// How the condition and the recursive call of a segment-form body
/// evaluate.
proof fn lemma_step_parts(defs: Seq<DefTerm>, d: DefTerm, red: RedTerm, i: int, hi: int, a: Value, fuel: nat)
    requires
        segment_setup(defs, d, red),
    ensures
        d.body matches Term::If { condition, then_branch, else_branch } && evaluated(
            defs,
            *condition,
            state(d, i, hi, a),
            fuel,
        ) == Some(flag(i > hi)) && evaluated(defs, *then_branch, state(d, i, hi, a), fuel) == Some(a) && evaluated(
            defs,
            *else_branch,
            state(d, i, hi, a),
            fuel,
        ) == match element_at(defs, d, red, i, fuel) {
            Some(g) => if fuel == 0 {
                None
            } else {
                run(
                    defs,
                    d,
                    wrapped(i + 1),
                    hi,
                    Value::Num(combined(red.combiner, number_of(a), number_of(g))),
                    (fuel - 1) as nat,
                )
            },
            None => None,
        },
{
    lemma_segment_body(d, red);
    lemma_state(d, i, hi, a);
    let env = state(d, i, hi, a);
    let p = d.params;
    lemma_reads_only_scope(defs, red.element, p[0], env, map![p[0] => Value::Num(i)], fuel);
    if let Term::If { condition, then_branch, else_branch } = d.body {
        let c = *condition;
        if let Term::Primitive { op, args } = c {
            assert(evaluated(defs, args[0], env, fuel) == Some(Value::Num(i)));
            assert(evaluated(defs, args[1], env, fuel) == Some(Value::Num(hi)));
        }
        if let Term::Call { callee, args } = *else_branch {
            if let Term::Primitive { op, args: st } = args[0] {
                assert(evaluated(defs, st[0], env, fuel) == Some(Value::Num(i)));
                assert(evaluated(defs, st[1], env, fuel) == Some(Value::Num(1)));
            }
            if let Term::Primitive { op, args: pair } = args[2] {
                assert(evaluated(defs, pair[0], env, fuel) == Some(a));
                assert(evaluated(defs, pair[1], env, fuel) == element_at(defs, d, red, i, fuel));
            }
            lemma_evaluated_three(defs, args, env, fuel);
            if let Some(g) = element_at(defs, d, red, i, fuel) {
                let v = Value::Num(combined(red.combiner, number_of(a), number_of(g)));
                assert(evaluated(defs, args[2], env, fuel) == Some(v));
                let vs = seq![Value::Num(wrapped(i + 1)), Value::Num(hi), v];
                assert(evaluated_all(defs, args, env, fuel) == Some(vs));
                assert(state(d, wrapped(i + 1), hi, v) == bound_params(p, vs));
            } else {
                assert(evaluated(defs, args[2], env, fuel) is None);
            }
        }
    }
}

/// One step of the run: past the bound it gives the accumulator, otherwise
/// it combines the element into it and runs on from the next counter with
/// one call's less fuel.
pub proof fn lemma_run_step(defs: Seq<DefTerm>, d: DefTerm, red: RedTerm, i: int, hi: int, a: Value, fuel: nat)
    requires
        segment_setup(defs, d, red),
    ensures
        run(defs, d, i, hi, a, fuel) == if i > hi {
            Some(a)
        } else {
            match element_at(defs, d, red, i, fuel) {
                Some(g) => if fuel == 0 {
                    None
                } else {
                    run(
                        defs,
                        d,
                        wrapped(i + 1),
                        hi,
                        Value::Num(combined(red.combiner, number_of(a), number_of(g))),
                        (fuel - 1) as nat,
                    )
                },
                None => None,
            }
        },
{
    lemma_step_parts(defs, d, red, i, hi, a, fuel);
}

/// A number already in the signed 24-bit range wraps to itself.
proof fn lemma_wrapped_small(v: int)
    requires
        -8388608 <= v <= 8388607,
    ensures
        wrapped(v) == v,
{
    vstd::arithmetic::div_mod::lemma_small_mod((v + 8388608) as nat, 16777216);
}

/// The accumulator goes along: a run from any accumulator computes its
/// number combined with the run from the identity, and one runs exactly when
/// the other does.
pub proof fn lemma_run_linear(defs: Seq<DefTerm>, d: DefTerm, red: RedTerm, i: int, hi: int, a: Value, fuel: nat)
    requires
        segment_setup(defs, d, red),
        i <= hi,
    ensures
        run(defs, d, i, hi, a, fuel) is Some <==> run(
            defs,
            d,
            i,
            hi,
            Value::Num(identity_of(red.combiner)),
            fuel,
        ) is Some,
        run(defs, d, i, hi, Value::Num(identity_of(red.combiner)), fuel) matches Some(v) ==> v is Num,
        run(defs, d, i, hi, Value::Num(identity_of(red.combiner)), fuel) matches Some(Value::Num(t)) ==> run(
            defs,
            d,
            i,
            hi,
            a,
            fuel,
        ) == Some(Value::Num(combined(red.combiner, number_of(a), t))),
    decreases fuel,
{
    let op = red.combiner;
    let id = Value::Num(identity_of(op));
    let x = number_of(a);
    lemma_run_step(defs, d, red, i, hi, a, fuel);
    lemma_run_step(defs, d, red, i, hi, id, fuel);
    if let Some(gv) = element_at(defs, d, red, i, fuel) {
        let g = number_of(gv);
        if fuel > 0 {
            let i1 = wrapped(i + 1);
            let f1 = (fuel - 1) as nat;
            let t1 = combined(op, identity_of(op), g);
            lemma_combined_identity(op, g);
            assert(number_of(id) == identity_of(op));
            if i1 > hi {
                assert(run(defs, d, i1, hi, Value::Num(t1), f1) == Some(Value::Num(t1))) by {
                    lemma_run_step(defs, d, red, i1, hi, Value::Num(t1), f1);
                }
                assert(run(defs, d, i, hi, id, fuel) == Some(Value::Num(t1)));
                lemma_run_step(defs, d, red, i1, hi, Value::Num(combined(op, x, g)), f1);
                lemma_combined_wrapped(op, x, g);
            } else {
                lemma_run_linear(defs, d, red, i1, hi, Value::Num(t1), f1);
                lemma_run_linear(defs, d, red, i1, hi, Value::Num(combined(op, x, g)), f1);
                if let Some(Value::Num(r)) = run(defs, d, i1, hi, id, f1) {
                    lemma_combined_wrapped(op, g, r);
                    lemma_combined_associative(op, x, g, r);
                }
            }
        }
    }
}

/// A run over `[i, hi]` first runs over `[i, m]`, with the same fuel for
/// the shared steps, and then on from `m + 1` with what is left.
proof fn lemma_run_prefix(defs: Seq<DefTerm>, d: DefTerm, red: RedTerm, i: int, m: int, hi: int, a: Value, fuel: nat)
    requires
        segment_setup(defs, d, red),
        i <= m + 1,
        m < hi,
        -8388608 <= i,
        hi <= 8388607,
        run(defs, d, i, hi, a, fuel) is Some,
    ensures
        fuel >= m + 1 - i,
        run(defs, d, i, m, a, fuel) is Some,
        run(defs, d, m + 1, hi, run(defs, d, i, m, a, fuel).unwrap(), (fuel - (m + 1 - i)) as nat) == run(
            defs,
            d,
            i,
            hi,
            a,
            fuel,
        ),
    decreases m + 1 - i,
{
    lemma_run_step(defs, d, red, i, hi, a, fuel);
    lemma_run_step(defs, d, red, i, m, a, fuel);
    if i <= m {
        lemma_wrapped_small(i + 1);
        let x = number_of(a);
        let g = number_of(element_at(defs, d, red, i, fuel)->Some_0);
        let a1 = Value::Num(combined(red.combiner, x, g));
        lemma_run_prefix(defs, d, red, i + 1, m, hi, a1, (fuel - 1) as nat);
    }
}

/// A run from the identity over `[lo, hi]` splits at any `m` inside it into
/// two runs from the identity, combined.
proof fn lemma_run_split(defs: Seq<DefTerm>, d: DefTerm, red: RedTerm, lo: int, m: int, hi: int, fuel: nat)
    requires
        segment_setup(defs, d, red),
        lo <= m < hi,
        -8388608 <= lo,
        hi <= 8388607,
        run(defs, d, lo, hi, Value::Num(identity_of(red.combiner)), fuel) is Some,
    ensures
        run(defs, d, lo, m, Value::Num(identity_of(red.combiner)), fuel) matches Some(Value::Num(t1)) && run(
            defs,
            d,
            m + 1,
            hi,
            Value::Num(identity_of(red.combiner)),
            fuel,
        ) matches Some(Value::Num(t2)) && run(defs, d, lo, hi, Value::Num(identity_of(red.combiner)), fuel) == Some(
            Value::Num(combined(red.combiner, t1, t2)),
        ),
{
    let id = Value::Num(identity_of(red.combiner));
    lemma_run_prefix(defs, d, red, lo, m, hi, id, fuel);
    let w = run(defs, d, lo, m, id, fuel).unwrap();
    let f2 = (fuel - (m + 1 - lo)) as nat;
    lemma_more_fuel(defs, d.body, state(d, m + 1, hi, w), f2, fuel);
    lemma_run_linear(defs, d, red, lo, m, id, fuel);
    lemma_run_linear(defs, d, red, m + 1, hi, w, fuel);
}

/// The chunk tree over `[lo, hi]` computes the run from the identity over
/// that range: each leaf is a call over a sub-range, each node combines two.
pub proof fn lemma_chunked_value(
    defs: Seq<DefTerm>,
    d: DefTerm,
    red: RedTerm,
    lo: int,
    hi: int,
    k: nat,
    env: Map<Seq<char>, Value>,
    fuel: nat,
)
    requires
        segment_setup(defs, d, red),
        0 <= lo <= hi <= 8388607,
        fuel > 0,
        run(defs, d, lo, hi, Value::Num(identity_of(red.combiner)), (fuel - 1) as nat) is Some,
    ensures
        chunked(red, lo, hi, k) is Some,
        evaluated(defs, chunked(red, lo, hi, k).unwrap(), env, fuel) == run(
            defs,
            d,
            lo,
            hi,
            Value::Num(identity_of(red.combiner)),
            (fuel - 1) as nat,
        ),
    decreases k,
{
    lemma_segment_body(d, red);
    let op = red.combiner;
    let f1 = (fuel - 1) as nat;
    if k <= 1 || lo >= hi {
        let args = seq![Term::Number(lo as i64), Term::Number(hi as i64), identity_term(op)];
        assert(segment(red, lo, hi) == Some(Term::Call { callee: red.name, args }));
        lemma_evaluated_three(defs, args, env, fuel);
        assert(evaluated(defs, args[0], env, fuel) == Some(Value::Num(lo)));
        assert(evaluated(defs, args[1], env, fuel) == Some(Value::Num(hi)));
        assert(evaluated(defs, args[2], env, fuel) == Some(Value::Num(identity_of(op))));
        let vs = seq![Value::Num(lo), Value::Num(hi), Value::Num(identity_of(op))];
        assert(state(d, lo, hi, Value::Num(identity_of(op))) == bound_params(d.params, vs));
    } else {
        let left = k / 2;
        let right = (k - left) as nat;
        let mid = lo + (hi - lo) / 2;
        lemma_run_split(defs, d, red, lo, mid, hi, f1);
        lemma_chunked_value(defs, d, red, lo, mid, left, env, fuel);
        lemma_chunked_value(defs, d, red, mid + 1, hi, right, env, fuel);
        let a = chunked(red, lo, mid, left).unwrap();
        let b = chunked(red, mid + 1, hi, right).unwrap();
        assert(chunked(red, lo, hi, k) == Some(combine_term(op, a, b)));
    }
}

// ---------------------------------------------------------------------------
// Rewriting calls into chunk trees
// ---------------------------------------------------------------------------

/// A chunk tree exists only for a reduction in segment form.
proof fn lemma_chunked_form(red: RedTerm, lo: int, hi: int, k: nat)
    ensures
        chunked(red, lo, hi, k) is Some ==> segment_form(red),
    decreases k,
{
    if !(k <= 1 || lo >= hi) {
        let left = k / 2;
        let right = (k - left) as nat;
        let mid = lo + (hi - lo) / 2;
        lemma_chunked_form(red, lo, mid, left);
    }
}

/// A reduction found under a name was recognized from a definition of that
/// name.
proof fn lemma_found_reduction(defs: Seq<DefTerm>, n: Seq<char>)
    ensures
        find_red(recognized_all(defs), n) matches Some(red) ==> exists|j: int|
            0 <= j < defs.len() && defs[j].name == n && recognized(defs[j]) == Some(red),
    decreases defs.len(),
{
    if defs.len() > 0 {
        let fr = defs.drop_last();
        lemma_found_reduction(fr, n);
        let front = recognized_all(fr);
        let last = defs.len() - 1;
        assert(defs[last] == defs.last());
        if let Some(red) = find_red(recognized_all(defs), n) {
            if let Some(r) = recognized(defs.last()) {
                assert(front.push((defs.last().name, r)).drop_last() =~= front);
            }
            if find_red(front, n) == Some(red) && !(recognized(defs.last()) is Some && defs.last().name == n) {
                let j = choose|j: int| 0 <= j < fr.len() && fr[j].name == n && recognized(fr[j]) == Some(red);
                assert(defs[j] == fr[j]);
            }
        }
    }
}

/// A call replaced by a chunk tree, its initial accumulator combined in,
/// computes what the call computed.
proof fn lemma_replacement_keeps_value(
    defs: Seq<DefTerm>,
    k: u32,
    callee: Seq<char>,
    args: Seq<Term>,
    a: Seq<Term>,
    gen: Generated,
    env: Map<Seq<char>, Value>,
    fuel: nat,
)
    requires
        distinct_names(defs),
        evaluated(defs, Term::Call { callee, args }, env, fuel) is Some,
        evaluated_all(defs, a, env, fuel) == evaluated_all(defs, args, env, fuel),
        a.len() == args.len(),
    ensures
        replacement(recognized_all(defs), Shape::Chunked(k), callee, a, gen).0 matches Some(r) ==> evaluated(
            defs,
            r,
            env,
            fuel,
        ) == evaluated(defs, Term::Call { callee, args }, env, fuel),
{
    let reds = recognized_all(defs);
    if let Some(r) = replacement(reds, Shape::Chunked(k), callee, a, gen).0 {
        let red = find_red(reds, callee).unwrap();
        let (lo, hi) = range_of(red, a).unwrap();
        lemma_chunked_form(red, lo, hi, k as nat);
        lemma_found_reduction(defs, callee);
        let j = choose|j: int| 0 <= j < defs.len() && defs[j].name == callee && recognized(defs[j]) == Some(red);
        let d = defs[j];
        lemma_distinct_find_def(defs);
        assert(find_def(defs, callee) == Some(d));
        lemma_segment_body(d, red);
        let values = evaluated_all(defs, args, env, fuel).unwrap();
        lemma_evaluated_all_each(defs, args, env, fuel);
        assert(a.len() == 3);
        lemma_evaluated_three(defs, a, env, fuel);
        let x0 = evaluated(defs, a[0], env, fuel).unwrap();
        let x1 = evaluated(defs, a[1], env, fuel).unwrap();
        let v2 = evaluated(defs, a[2], env, fuel).unwrap();
        assert(x0 == Value::Num(lo));
        assert(x1 == Value::Num(hi));
        assert(values =~= seq![Value::Num(lo), Value::Num(hi), v2]);
        let f1 = (fuel - 1) as nat;
        assert(evaluated(defs, Term::Call { callee, args }, env, fuel) == run(defs, d, lo, hi, v2, f1));
        lemma_run_linear(defs, d, red, lo, hi, v2, f1);
        lemma_chunked_value(defs, d, red, lo, hi, k as nat, env, fuel);
    }
}

/// Rewriting calls into chunk trees never changes a computed value.
pub proof fn lemma_chunk_rewrite_keeps_value(
    defs: Seq<DefTerm>,
    k: u32,
    t: Term,
    gen: Generated,
    env: Map<Seq<char>, Value>,
    fuel: nat,
)
    requires
        distinct_names(defs),
        evaluated(defs, t, env, fuel) is Some,
    ensures
        evaluated(defs, rewrite(recognized_all(defs), Shape::Chunked(k), t, gen).0, env, fuel) == evaluated(
            defs,
            t,
            env,
            fuel,
        ),
    decreases t,
{
    let reds = recognized_all(defs);
    let shape = Shape::Chunked(k);
    match t {
        Term::Call { callee, args } => {
            let (a, g1) = rewrite_all(reds, shape, args, gen);
            lemma_chunk_rewrite_keeps_values(defs, k, args, gen, env, fuel);
            lemma_replacement_keeps_value(defs, k, callee, args, a, g1, env, fuel);
        },
        Term::Primitive { op, args } => {
            lemma_chunk_rewrite_keeps_values(defs, k, args, gen, env, fuel);
            let a = rewrite_all(reds, shape, args, gen).0;
            if args.len() == 2 {
                lemma_evaluated_pair(defs, args, env, fuel);
                lemma_evaluated_pair(defs, a, env, fuel);
            }
        },
        Term::If { condition, then_branch, else_branch } => {
            let (c, g1) = rewrite(reds, shape, *condition, gen);
            let (x, g2) = rewrite(reds, shape, *then_branch, g1);
            lemma_chunk_rewrite_keeps_value(defs, k, *condition, gen, env, fuel);
            if let Some(Value::Num(v)) = evaluated(defs, *condition, env, fuel) {
                if v == 0 {
                    lemma_chunk_rewrite_keeps_value(defs, k, *else_branch, g2, env, fuel);
                } else {
                    lemma_chunk_rewrite_keeps_value(defs, k, *then_branch, g1, env, fuel);
                }
            }
        },
        Term::Let { bindings, body } => {
            let (bs, g1) = rewrite_bindings(reds, shape, bindings, gen);
            lemma_chunk_rewrite_keeps_bindings(defs, k, bindings, gen, env, fuel);
            let inner = bound_in(defs, bindings, env, fuel).unwrap();
            lemma_chunk_rewrite_keeps_value(defs, k, *body, g1, inner, fuel);
        },
        Term::Cons(h, tl) => {
            let (x, g1) = rewrite(reds, shape, *h, gen);
            lemma_chunk_rewrite_keeps_value(defs, k, *h, gen, env, fuel);
            lemma_chunk_rewrite_keeps_value(defs, k, *tl, g1, env, fuel);
        },
        Term::Car(v) => lemma_chunk_rewrite_keeps_value(defs, k, *v, gen, env, fuel),
        Term::Cdr(v) => lemma_chunk_rewrite_keeps_value(defs, k, *v, gen, env, fuel),
        Term::Null(v) => lemma_chunk_rewrite_keeps_value(defs, k, *v, gen, env, fuel),
        _ => {},
    }
}

/// Two operands have values exactly when each has one.
proof fn lemma_evaluated_pair(defs: Seq<DefTerm>, s: Seq<Term>, env: Map<Seq<char>, Value>, fuel: nat)
    requires
        s.len() == 2,
    ensures
        evaluated_all(defs, s, env, fuel) == match (evaluated(defs, s[0], env, fuel), evaluated(defs, s[1], env, fuel)) {
            (Some(x), Some(y)) => Some(seq![x, y]),
            _ => None,
        },
{
    let s1 = s.drop_last();
    let s0 = s1.drop_last();
    assert(s0.len() == 0);
    assert(s1.last() == s[0]);
    assert(evaluated_all(defs, s0, env, fuel) == Some(Seq::<Value>::empty()));
    let r1 = evaluated_all(defs, s1, env, fuel);
    if let (Some(x), Some(y)) = (evaluated(defs, s[0], env, fuel), evaluated(defs, s[1], env, fuel)) {
        assert(r1 == Some(Seq::<Value>::empty().push(x)));
        assert(Seq::<Value>::empty().push(x).push(y) =~= seq![x, y]);
    }
}

proof fn lemma_chunk_rewrite_keeps_values(
    defs: Seq<DefTerm>,
    k: u32,
    s: Seq<Term>,
    gen: Generated,
    env: Map<Seq<char>, Value>,
    fuel: nat,
)
    requires
        distinct_names(defs),
    ensures
        rewrite_all(recognized_all(defs), Shape::Chunked(k), s, gen).0.len() == s.len(),
        evaluated_all(defs, s, env, fuel) is Some ==> evaluated_all(
            defs,
            rewrite_all(recognized_all(defs), Shape::Chunked(k), s, gen).0,
            env,
            fuel,
        ) == evaluated_all(defs, s, env, fuel),
    decreases s,
{
    if s.len() > 0 {
        let reds = recognized_all(defs);
        let (front, g1) = rewrite_all(reds, Shape::Chunked(k), s.drop_last(), gen);
        lemma_chunk_rewrite_keeps_values(defs, k, s.drop_last(), gen, env, fuel);
        let out = rewrite_all(reds, Shape::Chunked(k), s, gen).0;
        assert(out.drop_last() =~= front);
        if evaluated_all(defs, s, env, fuel) is Some {
            lemma_chunk_rewrite_keeps_value(defs, k, s.last(), g1, env, fuel);
        }
    }
}

proof fn lemma_chunk_rewrite_keeps_bindings(
    defs: Seq<DefTerm>,
    k: u32,
    s: Seq<(Seq<char>, Term)>,
    gen: Generated,
    env: Map<Seq<char>, Value>,
    fuel: nat,
)
    requires
        distinct_names(defs),
        bound_in(defs, s, env, fuel) is Some,
    ensures
        bound_in(defs, rewrite_bindings(recognized_all(defs), Shape::Chunked(k), s, gen).0, env, fuel) == bound_in(
            defs,
            s,
            env,
            fuel,
        ),
    decreases s,
{
    if s.len() > 0 {
        let reds = recognized_all(defs);
        let (front, g1) = rewrite_bindings(reds, Shape::Chunked(k), s.drop_last(), gen);
        lemma_chunk_rewrite_keeps_bindings(defs, k, s.drop_last(), gen, env, fuel);
        let out = rewrite_bindings(reds, Shape::Chunked(k), s, gen).0;
        assert(out.drop_last() =~= front);
        let inner = bound_in(defs, s.drop_last(), env, fuel).unwrap();
        lemma_chunk_rewrite_keeps_value(defs, k, s.last().1, g1, inner, fuel);
    }
}

// ---------------------------------------------------------------------------
// What a chunk rewrite keeps of a term's shape
// ---------------------------------------------------------------------------

/// Number literals mention no name, bind nothing, and fit when each does.
proof fn lemma_number_args(s: Seq<Term>, scope: Seq<Seq<char>>)
    requires
        forall|i: int| 0 <= i < s.len() ==> #[trigger] s[i] is Number,
    ensures
        names_in_all(s).len() == 0,
        unshadowed_all(s, scope),
        parallel_safe_all(s),
        (forall|i: int| 0 <= i < s.len() ==> crate::ir::in_i24((#[trigger] s[i])->Number_0 as int)) ==> literals_fit_all(s),
    decreases s.len(),
{
    if s.len() > 0 {
        assert forall|i: int| 0 <= i < s.drop_last().len() implies #[trigger] s.drop_last()[i] is Number by {
            assert(s.drop_last()[i] == s[i]);
        }
        let last = s.last();
        assert(last == s[s.len() - 1]);
        assert(last is Number);
        assert(names_in(last) =~= Seq::<Seq<char>>::empty());
        lemma_number_args(s.drop_last(), scope);
        assert(names_in_all(s) =~= names_in_all(s.drop_last()) + names_in(last));
        assert(unshadowed(last, scope));
        assert(parallel_safe(last));
        if forall|i: int| 0 <= i < s.len() ==> crate::ir::in_i24((#[trigger] s[i])->Number_0 as int) {
            assert forall|i: int| 0 <= i < s.drop_last().len() implies crate::ir::in_i24(
                (#[trigger] s.drop_last()[i])->Number_0 as int,
            ) by {
                assert(s.drop_last()[i] == s[i]);
            }
            assert(crate::ir::in_i24(s[s.len() - 1]->Number_0 as int));
            assert(literals_fit(last));
        }
    }
}

/// Two operands: their names, fit, scopes and `let`s are those of each.
proof fn lemma_pair_parts(x: Term, y: Term, scope: Seq<Seq<char>>)
    ensures
        names_in_all(seq![x, y]) == names_in(x) + names_in(y),
        literals_fit_all(seq![x, y]) == (literals_fit(x) && literals_fit(y)),
        unshadowed_all(seq![x, y], scope) == (unshadowed(x, scope) && unshadowed(y, scope)),
        parallel_safe_all(seq![x, y]) == (parallel_safe(x) && parallel_safe(y)),
{
    let s = seq![x, y];
    let one = seq![x];
    assert(s.drop_last() =~= one);
    assert(s.last() == y);
    assert(one.drop_last() =~= Seq::<Term>::empty());
    assert(one.last() == x);
    assert(names_in_all(Seq::<Term>::empty()) =~= Seq::<Seq<char>>::empty());
    assert(names_in_all(one) =~= names_in(x));
    assert(literals_fit_all(Seq::<Term>::empty()));
    assert(unshadowed_all(Seq::<Term>::empty(), scope));
    assert(parallel_safe_all(Seq::<Term>::empty()));
    assert(literals_fit_all(one) == literals_fit(x));
    assert(unshadowed_all(one, scope) == unshadowed(x, scope));
    assert(parallel_safe_all(one) == parallel_safe(x));
}

/// A chunk tree mentions only the reduction's name, binds nothing, and
/// keeps its literals in range when its range is in range.
proof fn lemma_chunked_shape(red: RedTerm, lo: int, hi: int, k: nat, scope: Seq<Seq<char>>)
    requires
        chunked(red, lo, hi, k) is Some,
    ensures
        unshadowed(chunked(red, lo, hi, k).unwrap(), scope),
        parallel_safe(chunked(red, lo, hi, k).unwrap()),
        forall|n: Seq<char>| #[trigger] names_in(chunked(red, lo, hi, k).unwrap()).contains(n) ==> n == red.name,
        -8388608 <= lo <= hi <= 8388607 ==> literals_fit(chunked(red, lo, hi, k).unwrap()),
    decreases k,
{
    broadcast use vstd::seq_lib::lemma_seq_concat_contains_all_elements;

    if k <= 1 || lo >= hi {
        let args = seq![Term::Number(lo as i64), Term::Number(hi as i64), identity_term(red.combiner)];
        assert(chunked(red, lo, hi, k) == Some(Term::Call { callee: red.name, args }));
        lemma_number_args(args, scope);
        assert(names_in(Term::Call { callee: red.name, args }) =~= seq![red.name]);
        if -8388608 <= lo <= hi <= 8388607 {
            assert forall|i: int| 0 <= i < args.len() implies crate::ir::in_i24((#[trigger] args[i])->Number_0 as int) by {}
        }
    } else {
        let left = k / 2;
        let right = (k - left) as nat;
        let mid = lo + (hi - lo) / 2;
        lemma_chunked_shape(red, lo, mid, left, scope);
        lemma_chunked_shape(red, mid + 1, hi, right, scope);
        let a = chunked(red, lo, mid, left).unwrap();
        let b = chunked(red, mid + 1, hi, right).unwrap();
        assert(chunked(red, lo, hi, k) == Some(combine_term(red.combiner, a, b)));
        lemma_pair_parts(a, b, scope);
    }
}

/// Rewriting into chunk trees generates no helper, keeps literals in
/// range, shadows nothing, keeps every `let` parallel-safe and mentions no
/// name the term did not.
pub proof fn lemma_chunk_rewrite_shape(
    reds: Seq<(Seq<char>, RedTerm)>,
    k: u32,
    t: Term,
    gen: Generated,
    scope: Seq<Seq<char>>,
)
    requires
        forall|i: int| 0 <= i < reds.len() ==> (#[trigger] reds[i]).1.name == reds[i].0,
    ensures
        rewrite(reds, Shape::Chunked(k), t, gen).1 == gen,
        literals_fit(t) ==> literals_fit(rewrite(reds, Shape::Chunked(k), t, gen).0),
        unshadowed(t, scope) ==> unshadowed(rewrite(reds, Shape::Chunked(k), t, gen).0, scope),
        parallel_safe(t) ==> parallel_safe(rewrite(reds, Shape::Chunked(k), t, gen).0),
        within(names_in(rewrite(reds, Shape::Chunked(k), t, gen).0), names_in(t)),
    decreases t,
{
    broadcast use vstd::seq_lib::lemma_seq_concat_contains_all_elements;

    let shape = Shape::Chunked(k);
    let r = rewrite(reds, shape, t, gen).0;
    match t {
        Term::Call { callee, args } => {
            let (a, g1) = rewrite_all(reds, shape, args, gen);
            lemma_chunk_rewrite_shape_all(reds, k, args, gen, scope);
            if let Some(x) = replacement(reds, shape, callee, a, g1).0 {
                let red = find_red(reds, callee).unwrap();
                let (lo, hi) = range_of(red, a).unwrap();
                lemma_chunked_form(red, lo, hi, k as nat);
                let tree = chunked(red, lo, hi, k as nat).unwrap();
                lemma_chunked_shape(red, lo, hi, k as nat, scope);
                lemma_found_name(reds, callee);
                assert(x == combine_term(red.combiner, a[2], tree));
                assert(r == x);
                lemma_pair_parts(a[2], tree, scope);
                lemma_all_used_each(a, names_in_all(a).to_set());
                assert(all_used(names_in(a[2]), names_in_all(a).to_set()));
                if literals_fit(t) {
                    lemma_literals_fit_each(a);
                    assert(literals_fit(a[0]) && literals_fit(a[1]));
                }
                if unshadowed(t, scope) {
                    lemma_unshadowed_each(a, scope);
                }
                if parallel_safe(t) {
                    lemma_parallel_safe_each(a);
                }
                assert(names_in(t) == seq![callee] + names_in_all(args));
                assert(seq![callee][0] == callee);
                assert forall|n: Seq<char>| #[trigger] names_in(x).contains(n) implies names_in(t).contains(n) by {
                    if names_in(a[2]).contains(n) {
                        assert(names_in_all(a).to_set().contains(n));
                        assert(names_in_all(a).contains(n));
                        assert(names_in_all(args).contains(n));
                    } else {
                        assert(names_in(tree).contains(n));
                        assert(seq![callee].contains(n));
                    }
                }
            } else {
                assert(r == Term::Call { callee, args: a });
                assert forall|n: Seq<char>| #[trigger] names_in(r).contains(n) implies names_in(t).contains(n) by {
                    assert(names_in(r) == seq![callee] + names_in_all(a));
                    assert(names_in(t) == seq![callee] + names_in_all(args));
                }
            }
            assert(within(names_in(r), names_in(t)));
        },
        Term::Primitive { op, args } => lemma_chunk_rewrite_shape_all(reds, k, args, gen, scope),
        Term::If { condition, then_branch, else_branch } => {
            let (c, g1) = rewrite(reds, shape, *condition, gen);
            let (x, g2) = rewrite(reds, shape, *then_branch, g1);
            lemma_chunk_rewrite_shape(reds, k, *condition, gen, scope);
            lemma_chunk_rewrite_shape(reds, k, *then_branch, g1, scope);
            lemma_chunk_rewrite_shape(reds, k, *else_branch, g2, scope);
        },
        Term::Let { bindings, body } => {
            let (bs, g1) = rewrite_bindings(reds, shape, bindings, gen);
            lemma_chunk_rewrite_shape_bindings(reds, k, bindings, gen, scope);
            lemma_chunk_rewrite_shape(reds, k, *body, g1, scope + bound_names(bindings));
        },
        Term::Cons(h, tl) => {
            let (x, g1) = rewrite(reds, shape, *h, gen);
            lemma_chunk_rewrite_shape(reds, k, *h, gen, scope);
            lemma_chunk_rewrite_shape(reds, k, *tl, g1, scope);
        },
        Term::Car(v) => lemma_chunk_rewrite_shape(reds, k, *v, gen, scope),
        Term::Cdr(v) => lemma_chunk_rewrite_shape(reds, k, *v, gen, scope),
        Term::Null(v) => lemma_chunk_rewrite_shape(reds, k, *v, gen, scope),
        _ => {},
    }
}

/// A reduction found under a name carries that name.
proof fn lemma_found_name(reds: Seq<(Seq<char>, RedTerm)>, n: Seq<char>)
    requires
        forall|i: int| 0 <= i < reds.len() ==> (#[trigger] reds[i]).1.name == reds[i].0,
    ensures
        find_red(reds, n) matches Some(red) ==> red.name == n,
    decreases reds.len(),
{
    if reds.len() > 0 {
        assert(reds.last() == reds[reds.len() - 1]);
        assert forall|i: int| 0 <= i < reds.drop_last().len() implies (#[trigger] reds.drop_last()[i]).1.name
            == reds.drop_last()[i].0 by {
            assert(reds.drop_last()[i] == reds[i]);
        }
        lemma_found_name(reds.drop_last(), n);
    }
}

proof fn lemma_chunk_rewrite_shape_all(
    reds: Seq<(Seq<char>, RedTerm)>,
    k: u32,
    s: Seq<Term>,
    gen: Generated,
    scope: Seq<Seq<char>>,
)
    requires
        forall|i: int| 0 <= i < reds.len() ==> (#[trigger] reds[i]).1.name == reds[i].0,
    ensures
        rewrite_all(reds, Shape::Chunked(k), s, gen).1 == gen,
        rewrite_all(reds, Shape::Chunked(k), s, gen).0.len() == s.len(),
        literals_fit_all(s) ==> literals_fit_all(rewrite_all(reds, Shape::Chunked(k), s, gen).0),
        unshadowed_all(s, scope) ==> unshadowed_all(rewrite_all(reds, Shape::Chunked(k), s, gen).0, scope),
        parallel_safe_all(s) ==> parallel_safe_all(rewrite_all(reds, Shape::Chunked(k), s, gen).0),
        within(names_in_all(rewrite_all(reds, Shape::Chunked(k), s, gen).0), names_in_all(s)),
    decreases s,
{
    broadcast use vstd::seq_lib::lemma_seq_concat_contains_all_elements;

    if s.len() > 0 {
        let (front, g1) = rewrite_all(reds, Shape::Chunked(k), s.drop_last(), gen);
        lemma_chunk_rewrite_shape_all(reds, k, s.drop_last(), gen, scope);
        lemma_chunk_rewrite_shape(reds, k, s.last(), g1, scope);
        let (x, g2) = rewrite(reds, Shape::Chunked(k), s.last(), g1);
        let out = rewrite_all(reds, Shape::Chunked(k), s, gen).0;
        assert(out.drop_last() =~= front);
        assert(out.last() == x);
        assert forall|n: Seq<char>| #[trigger] names_in_all(out).contains(n) implies names_in_all(s).contains(n) by {
            assert(names_in_all(out) == names_in_all(front) + names_in(x));
        }
    }
}

proof fn lemma_chunk_rewrite_shape_bindings(
    reds: Seq<(Seq<char>, RedTerm)>,
    k: u32,
    s: Seq<(Seq<char>, Term)>,
    gen: Generated,
    scope: Seq<Seq<char>>,
)
    requires
        forall|i: int| 0 <= i < reds.len() ==> (#[trigger] reds[i]).1.name == reds[i].0,
    ensures
        rewrite_bindings(reds, Shape::Chunked(k), s, gen).1 == gen,
        bound_names(rewrite_bindings(reds, Shape::Chunked(k), s, gen).0) == bound_names(s),
        literals_fit_bindings(s) ==> literals_fit_bindings(rewrite_bindings(reds, Shape::Chunked(k), s, gen).0),
        unshadowed_bindings(s, scope) ==> unshadowed_bindings(rewrite_bindings(reds, Shape::Chunked(k), s, gen).0, scope),
        parallel_safe_bindings(s) ==> parallel_safe_bindings(rewrite_bindings(reds, Shape::Chunked(k), s, gen).0),
        within(names_in_bindings(rewrite_bindings(reds, Shape::Chunked(k), s, gen).0), names_in_bindings(s)),
    decreases s,
{
    broadcast use vstd::seq_lib::lemma_seq_concat_contains_all_elements;

    if s.len() > 0 {
        let (front, g1) = rewrite_bindings(reds, Shape::Chunked(k), s.drop_last(), gen);
        lemma_chunk_rewrite_shape_bindings(reds, k, s.drop_last(), gen, scope);
        let before = scope + bound_names(s.drop_last());
        lemma_chunk_rewrite_shape(reds, k, s.last().1, g1, before);
        let (x, g2) = rewrite(reds, Shape::Chunked(k), s.last().1, g1);
        let out = rewrite_bindings(reds, Shape::Chunked(k), s, gen).0;
        assert(out.drop_last() =~= front);
        assert(out.last() == (s.last().0, x));
        assert forall|n: Seq<char>| #[trigger] names_in_bindings(out).contains(n) implies names_in_bindings(
            s,
        ).contains(n) by {
            assert(names_in_bindings(out) == names_in_bindings(front) + seq![s.last().0] + names_in(x));
            assert(names_in_bindings(s) == names_in_bindings(s.drop_last()) + seq![s.last().0] + names_in(s.last().1));
        }
    }
}

// ---------------------------------------------------------------------------
// A whole program re-emitted in chunks
// ---------------------------------------------------------------------------

/// Every recognized reduction carries the name of its definition.
proof fn lemma_recognized_names(defs: Seq<DefTerm>)
    ensures
        forall|i: int|
            0 <= i < recognized_all(defs).len() ==> (#[trigger] recognized_all(defs)[i]).1.name == recognized_all(
                defs,
            )[i].0,
    decreases defs.len(),
{
    if defs.len() > 0 {
        lemma_recognized_names(defs.drop_last());
        let front = recognized_all(defs.drop_last());
        let all = recognized_all(defs);
        assert forall|i: int| 0 <= i < all.len() implies (#[trigger] all[i]).1.name == all[i].0 by {
            if i < front.len() {
                assert(all[i] == front[i]);
            }
        }
    }
}

/// Each definition rewritten into chunks, with no helper generated.
proof fn lemma_chunk_rewrite_definitions(reds: Seq<(Seq<char>, RedTerm)>, k: u32, ds: Seq<DefTerm>, gen: Generated)
    requires
        forall|i: int| 0 <= i < reds.len() ==> (#[trigger] reds[i]).1.name == reds[i].0,
    ensures
        rewrite_definitions(reds, Shape::Chunked(k), ds, gen).1 == gen,
        rewrite_definitions(reds, Shape::Chunked(k), ds, gen).0.len() == ds.len(),
        forall|i: int|
            0 <= i < ds.len() ==> #[trigger] rewrite_definitions(reds, Shape::Chunked(k), ds, gen).0[i] == (DefTerm {
                name: ds[i].name,
                params: ds[i].params,
                body: rewrite(reds, Shape::Chunked(k), ds[i].body, gen).0,
            }),
    decreases ds.len(),
{
    if ds.len() > 0 {
        lemma_chunk_rewrite_definitions(reds, k, ds.drop_last(), gen);
        let d = ds.last();
        lemma_chunk_rewrite_shape(reds, k, d.body, gen, Seq::empty());
        let (front, g1) = rewrite_definitions(reds, Shape::Chunked(k), ds.drop_last(), gen);
        let out = rewrite_definitions(reds, Shape::Chunked(k), ds, gen).0;
        assert forall|i: int| 0 <= i < ds.len() implies #[trigger] out[i] == (DefTerm {
            name: ds[i].name,
            params: ds[i].params,
            body: rewrite(reds, Shape::Chunked(k), ds[i].body, gen).0,
        }) by {
            if i < ds.len() - 1 {
                assert(out[i] == front[i]);
                assert(ds.drop_last()[i] == ds[i]);
            }
        }
    }
}

/// Re-emitting a program's reductions in chunks keeps its definitions'
/// names and parameters, keeps what each body and the final expression
/// compute, keeps literals in range, shadows nothing and keeps every `let`
/// parallel-safe.
pub proof fn lemma_chunk_reshaped_facts(p: ProgramTerm, k: u32)
    requires
        distinct_names(p.definitions),
        well_scoped(p.definitions),
        p.body matches Some(b) && literals_fit(b) && unshadowed(b, Seq::empty()),
    ensures
        reshaped(p, Shape::Chunked(k)).definitions.len() == p.definitions.len(),
        forall|i: int|
            0 <= i < p.definitions.len() ==> (#[trigger] reshaped(p, Shape::Chunked(k)).definitions[i]).name
                == p.definitions[i].name && reshaped(p, Shape::Chunked(k)).definitions[i].params
                == p.definitions[i].params,
        distinct_names(reshaped(p, Shape::Chunked(k)).definitions),
        well_scoped(reshaped(p, Shape::Chunked(k)).definitions),
        (forall|i: int| 0 <= i < p.definitions.len() ==> parallel_safe(#[trigger] p.definitions[i].body)) ==> forall|
            i: int,
        | 0 <= i < p.definitions.len() ==> parallel_safe(#[trigger] reshaped(p, Shape::Chunked(k)).definitions[i].body),
        refines_bodies(p.definitions, reshaped(p, Shape::Chunked(k)).definitions),
        reshaped(p, Shape::Chunked(k)).body matches Some(b) && literals_fit(b) && unshadowed(b, Seq::empty()),
        forall|env: Map<Seq<char>, Value>, fuel: nat|
            evaluated(p.definitions, p.body.unwrap(), env, fuel) is Some ==> #[trigger] evaluated(
                p.definitions,
                reshaped(p, Shape::Chunked(k)).body.unwrap(),
                env,
                fuel,
            ) == evaluated(p.definitions, p.body.unwrap(), env, fuel),
{
    let defs = p.definitions;
    let b = p.body.unwrap();
    let reds = recognized_all(defs);
    let shape = Shape::Chunked(k);
    let q = reshaped(p, shape);
    if reds.len() == 0 {
        assert(q == p);
        assert forall|i: int, env: Map<Seq<char>, Value>, fuel: nat|
            0 <= i < defs.len() && evaluated(defs, defs[i].body, env, fuel) is Some implies #[trigger] evaluated(
                defs,
                q.definitions[i].body,
                env,
                fuel,
            ) == evaluated(defs, defs[i].body, env, fuel) by {}
    } else {
        lemma_recognized_names(defs);
        lemma_chunk_rewrite_definitions(reds, k, defs, Seq::empty());
        let (rd, g1) = rewrite_definitions(reds, shape, defs, Seq::empty());
        lemma_chunk_rewrite_shape(reds, k, b, g1, Seq::empty());
        let (b1, g2) = rewrite(reds, shape, b, g1);
        assert(g2 == Seq::<(Seq<char>, RedTerm)>::empty());
        let helpers = g2.map_values(|h: (Seq<char>, RedTerm)| crate::shape::balanced_def(h.0, h.1));
        assert(helpers =~= Seq::<DefTerm>::empty());
        assert(q.definitions == rd + helpers);
        assert(q.definitions =~= rd);
        assert(q.body == Some(b1));
        assert forall|i: int| 0 <= i < defs.len() implies literals_fit(#[trigger] q.definitions[i].body) && unshadowed(
            q.definitions[i].body,
            Seq::empty(),
) && (parallel_safe(defs[i].body) ==> parallel_safe(q.definitions[i].body)) by {
            assert(literals_fit(defs[i].body) && unshadowed(defs[i].body, Seq::empty()));
            lemma_chunk_rewrite_shape(reds, k, defs[i].body, Seq::empty(), Seq::empty());
        }
        assert forall|i: int, env: Map<Seq<char>, Value>, fuel: nat|
            0 <= i < defs.len() && evaluated(defs, defs[i].body, env, fuel) is Some implies #[trigger] evaluated(
                defs,
                q.definitions[i].body,
                env,
                fuel,
            ) == evaluated(defs, defs[i].body, env, fuel) by {
            lemma_chunk_rewrite_keeps_value(defs, k, defs[i].body, Seq::empty(), env, fuel);
        }
        assert forall|env: Map<Seq<char>, Value>, fuel: nat|
            evaluated(defs, b, env, fuel) is Some implies #[trigger] evaluated(defs, b1, env, fuel) == evaluated(
                defs,
                b,
                env,
                fuel,
            ) by {
            lemma_chunk_rewrite_keeps_value(defs, k, b, g1, env, fuel);
        }
    }
    assert forall|i: int, j: int| #![trigger q.definitions[i], q.definitions[j]]
        0 <= i < j < q.definitions.len() implies q.definitions[i].name != q.definitions[j].name by {
        assert(defs[i].name != defs[j].name);
    }
}

// ---------------------------------------------------------------------------
// The balanced helper
// ---------------------------------------------------------------------------

/// A balanced helper's two parameters bound to `lo` and `hi`.
pub open spec fn helper_scope(lo: int, hi: int) -> Map<Seq<char>, Value> {
    bound_params(seq!["shapeLo"@, "shapeHi"@], seq![Value::Num(lo), Value::Num(hi)])
}

/// The reduction's element with its counter at `i`: what the chain as
/// written adds (or multiplies) in at step `i`.
pub open spec fn leaf_at(defs: Seq<DefTerm>, red: RedTerm, i: int, fuel: nat) -> Option<Value> {
    evaluated(defs, red.element, map![red.params[red.counter] => Value::Num(i)], fuel)
}

/// Every element over `[lo, hi]`, combined one after another from the
/// combiner's identity: what the chain as written computes.
pub open spec fn folded_range(defs: Seq<DefTerm>, red: RedTerm, lo: int, hi: int, fuel: nat) -> int
    decreases hi - lo + 1,
{
    if hi < lo {
        identity_of(red.combiner)
    } else {
        combined(
            red.combiner,
            folded_range(defs, red, lo, hi - 1, fuel),
            number_of(leaf_at(defs, red, hi, fuel).unwrap()),
        )
    }
}

proof fn lemma_wrapped_range(x: int)
    ensures
        -8388608 <= wrapped(x) <= 8388607,
        wrapped(wrapped(x)) == wrapped(x),
{
    crate::semantics::lemma_wrapped_fits(wrapped(x));
}

/// Combining the folds of `[lo, m]` and `[m + 1, hi]` gives the fold of
/// `[lo, hi]`: wrapping `+` and `*` re-associate.
proof fn lemma_range_split(defs: Seq<DefTerm>, red: RedTerm, lo: int, m: int, hi: int, fuel: nat)
    requires
        lo <= m < hi,
    ensures
        combined(red.combiner, folded_range(defs, red, lo, m, fuel), folded_range(defs, red, m + 1, hi, fuel))
            == folded_range(defs, red, lo, hi, fuel),
    decreases hi - m,
{
    let op = red.combiner;
    let a = folded_range(defs, red, lo, m, fuel);
    let g = number_of(leaf_at(defs, red, hi, fuel).unwrap());
    if hi == m + 1 {
        assert(folded_range(defs, red, m + 1, m, fuel) == identity_of(op));
        lemma_combined_identity(op, g);
        lemma_combined_wrapped(op, a, g);
    } else {
        lemma_range_split(defs, red, lo, m, hi - 1, fuel);
        let b = folded_range(defs, red, m + 1, hi - 1, fuel);
        lemma_combined_associative(op, a, b, g);
    }
}

/// With every element of `[lo, hi]` known at `f1`, more fuel changes no
/// element and so not the fold.
proof fn lemma_range_more_fuel(defs: Seq<DefTerm>, red: RedTerm, lo: int, hi: int, f1: nat, f2: nat)
    requires
        f1 <= f2,
        forall|i: int| lo <= i <= hi ==> (#[trigger] leaf_at(defs, red, i, f1)) is Some,
    ensures
        forall|i: int| lo <= i <= hi ==> #[trigger] leaf_at(defs, red, i, f2) == leaf_at(defs, red, i, f1),
        folded_range(defs, red, lo, hi, f2) == folded_range(defs, red, lo, hi, f1),
    decreases hi - lo + 1,
{
    assert forall|i: int| lo <= i <= hi implies #[trigger] leaf_at(defs, red, i, f2) == leaf_at(defs, red, i, f1) by {
        lemma_more_fuel(defs, red.element, map![red.params[red.counter] => Value::Num(i)], f1, f2);
    }
    if lo <= hi {
        lemma_range_more_fuel(defs, red, lo, hi - 1, f1, f2);
        assert(leaf_at(defs, red, hi, f2) == leaf_at(defs, red, hi, f1));
    }
}

proof fn lemma_substitute_all_index(s: Seq<Term>, from: Seq<char>, to: Term)
    ensures
        substitute_all(s, from, to).len() == s.len(),
        forall|i: int| 0 <= i < s.len() ==> #[trigger] substitute_all(s, from, to)[i] == substitute(s[i], from, to),
    decreases s.len(),
{
    if s.len() > 0 {
        lemma_substitute_all_index(s.drop_last(), from, to);
        assert forall|i: int| 0 <= i < s.len() implies #[trigger] substitute_all(s, from, to)[i] == substitute(
            s[i],
            from,
            to,
        ) by {
            if i < s.len() - 1 {
                assert(s.drop_last()[i] == s[i]);
            }
        }
    }
}

/// An expression that reads only `from` and binds neither `from` nor `to`
/// computes, with `to` put for `from`, what it computes where `from` has
/// the value `to` has.
proof fn lemma_substituted_reads(
    defs: Seq<DefTerm>,
    t: Term,
    from: Seq<char>,
    to: Seq<char>,
    e1: Map<Seq<char>, Value>,
    e2: Map<Seq<char>, Value>,
    fuel: nat,
)
    requires
        reads_only(t, from),
        !binders_of(t).contains(from),
        !binders_of(t).contains(to),
        e1.contains_key(to),
        e2.contains_key(from),
        e1[to] == e2[from],
    ensures
        evaluated(defs, substitute(t, from, Term::Var(to)), e1, fuel) == evaluated(defs, t, e2, fuel),
    decreases t,
{
    broadcast use vstd::seq_lib::lemma_seq_concat_contains_all_elements;

    let tv = Term::Var(to);
    match t {
        Term::Primitive { op, args } => {
            lemma_reads_only_each(args, from);
            lemma_substitute_all_index(args, from, tv);
            lemma_binders_each(args);
            if args.len() == 2 {
                lemma_substituted_reads(defs, args[0], from, to, e1, e2, fuel);
                lemma_substituted_reads(defs, args[1], from, to, e1, e2, fuel);
            }
        },
        Term::Call { callee, args } => lemma_substituted_reads_all(defs, args, from, to, e1, e2, fuel),
        Term::If { condition, then_branch, else_branch } => {
            lemma_substituted_reads(defs, *condition, from, to, e1, e2, fuel);
            lemma_substituted_reads(defs, *then_branch, from, to, e1, e2, fuel);
            lemma_substituted_reads(defs, *else_branch, from, to, e1, e2, fuel);
        },
        Term::Let { bindings, body } => {
            lemma_substituted_reads_bindings(defs, bindings, from, to, e1, e2, fuel);
            if let Some(i2) = bound_in(defs, bindings, e2, fuel) {
                let i1 = bound_in(defs, substitute_bindings(bindings, from, tv), e1, fuel).unwrap();
                lemma_substituted_reads(defs, *body, from, to, i1, i2, fuel);
            }
        },
        Term::Cons(h, tl) => {
            lemma_substituted_reads(defs, *h, from, to, e1, e2, fuel);
            lemma_substituted_reads(defs, *tl, from, to, e1, e2, fuel);
        },
        Term::Car(v) => lemma_substituted_reads(defs, *v, from, to, e1, e2, fuel),
        Term::Cdr(v) => lemma_substituted_reads(defs, *v, from, to, e1, e2, fuel),
        Term::Null(v) => lemma_substituted_reads(defs, *v, from, to, e1, e2, fuel),
        _ => {},
    }
}

proof fn lemma_binders_each(s: Seq<Term>)
    ensures
        forall|i: int, n: Seq<char>| 0 <= i < s.len() && #[trigger] binders_of(s[i]).contains(n)
            ==> binders_of_all(s).contains(n),
    decreases s.len(),
{
    broadcast use vstd::seq_lib::lemma_seq_concat_contains_all_elements;

    if s.len() > 0 {
        lemma_binders_each(s.drop_last());
        assert forall|i: int, n: Seq<char>| 0 <= i < s.len() && #[trigger] binders_of(s[i]).contains(n)
            implies binders_of_all(s).contains(n) by {
            if i < s.len() - 1 {
                assert(s.drop_last()[i] == s[i]);
                assert(binders_of_all(s.drop_last()).contains(n));
            }
        }
    }
}

proof fn lemma_substituted_reads_all(
    defs: Seq<DefTerm>,
    s: Seq<Term>,
    from: Seq<char>,
    to: Seq<char>,
    e1: Map<Seq<char>, Value>,
    e2: Map<Seq<char>, Value>,
    fuel: nat,
)
    requires
        reads_only_all(s, from),
        !binders_of_all(s).contains(from),
        !binders_of_all(s).contains(to),
        e1.contains_key(to),
        e2.contains_key(from),
        e1[to] == e2[from],
    ensures
        evaluated_all(defs, substitute_all(s, from, Term::Var(to)), e1, fuel) == evaluated_all(defs, s, e2, fuel),
    decreases s,
{
    broadcast use vstd::seq_lib::lemma_seq_concat_contains_all_elements;

    if s.len() > 0 {
        lemma_substituted_reads_all(defs, s.drop_last(), from, to, e1, e2, fuel);
        lemma_substituted_reads(defs, s.last(), from, to, e1, e2, fuel);
        let r = substitute_all(s, from, Term::Var(to));
        assert(r.drop_last() =~= substitute_all(s.drop_last(), from, Term::Var(to)));
    }
}

proof fn lemma_substituted_reads_bindings(
    defs: Seq<DefTerm>,
    s: Seq<(Seq<char>, Term)>,
    from: Seq<char>,
    to: Seq<char>,
    e1: Map<Seq<char>, Value>,
    e2: Map<Seq<char>, Value>,
    fuel: nat,
)
    requires
        reads_only_bindings(s, from),
        !binders_of_bindings(s).contains(from),
        !binders_of_bindings(s).contains(to),
        e1.contains_key(to),
        e2.contains_key(from),
        e1[to] == e2[from],
    ensures
        bound_in(defs, substitute_bindings(s, from, Term::Var(to)), e1, fuel) is Some <==> bound_in(
            defs,
            s,
            e2,
            fuel,
        ) is Some,
        bound_in(defs, s, e2, fuel) is Some ==> ({
            let i1 = bound_in(defs, substitute_bindings(s, from, Term::Var(to)), e1, fuel).unwrap();
            let i2 = bound_in(defs, s, e2, fuel).unwrap();
            i1.contains_key(to) && i2.contains_key(from) && i1[to] == i2[from]
        }),
    decreases s,
{
    broadcast use vstd::seq_lib::lemma_seq_concat_contains_all_elements;

    if s.len() > 0 {
        let tv = Term::Var(to);
        let s0 = s.drop_last();
        assert(binders_of_bindings(s) == binders_of_bindings(s0) + seq![s.last().0] + binders_of(s.last().1));
        assert(seq![s.last().0][0] == s.last().0);
        assert(seq![s.last().0].contains(s.last().0));
        lemma_substituted_reads_bindings(defs, s0, from, to, e1, e2, fuel);
        let r = substitute_bindings(s, from, tv);
        assert(r.drop_last() =~= substitute_bindings(s0, from, tv));
        assert(r.last() == (s.last().0, substitute(s.last().1, from, tv)));
        if let Some(i2) = bound_in(defs, s0, e2, fuel) {
            let i1 = bound_in(defs, substitute_bindings(s0, from, tv), e1, fuel).unwrap();
            lemma_substituted_reads(defs, s.last().1, from, to, i1, i2, fuel);
        }
    }
}

/// Where a helper's two parameters are bound.
proof fn lemma_helper_scope(lo: int, hi: int)
    ensures
        "shapeLo"@ != "shapeHi"@,
        "shapeLo"@ != "shapeMid"@,
        "shapeHi"@ != "shapeMid"@,
        helper_scope(lo, hi).contains_key("shapeLo"@),
        helper_scope(lo, hi)["shapeLo"@] == Value::Num(lo),
        helper_scope(lo, hi).contains_key("shapeHi"@),
        helper_scope(lo, hi)["shapeHi"@] == Value::Num(hi),
{
    reveal_strlit("shapeLo");
    reveal_strlit("shapeHi");
    reveal_strlit("shapeMid");
    let sl = "shapeLo"@;
    let sh = "shapeHi"@;
    let sm = "shapeMid"@;
    assert(sl != sh && sl != sm && sh != sm) by {
        assert(sl[5] != sh[5] && sl[5] != sm[5] && sh[5] != sm[5]);
    }
    let vals = seq![Value::Num(lo), Value::Num(hi)];
    let ps = seq![sl, sh];
    assert(ps.drop_last() =~= seq![sl] && vals.drop_last() =~= seq![Value::Num(lo)]);
    assert(seq![sl].drop_last() =~= Seq::<Seq<char>>::empty());
    assert(helper_scope(lo, hi) == bound_params(seq![sl], seq![Value::Num(lo)]).insert(sh, Value::Num(hi)));
}

/// A helper's midpoint binding over `lo < hi` binds `lo + (hi - lo) / 2`.
proof fn lemma_midpoint_binding(defs: Seq<DefTerm>, lo: int, hi: int, fuel: nat)
    requires
        0 <= lo < hi <= 8388607,
    ensures
        bound_in(
            defs,
            seq![
                (
                    "shapeMid"@,
                    Term::Primitive {
                        op: Primitive::Add,
                        args: seq![
                            Term::Var("shapeLo"@),
                            Term::Primitive {
                                op: Primitive::Div,
                                args: seq![
                                    Term::Primitive {
                                        op: Primitive::Sub,
                                        args: seq![Term::Var("shapeHi"@), Term::Var("shapeLo"@)],
                                    },
                                    Term::Number(2),
                                ],
                            },
                        ],
                    },
                ),
            ],
            helper_scope(lo, hi),
            fuel,
        ) == Some(helper_scope(lo, hi).insert("shapeMid"@, Value::Num(lo + (hi - lo) / 2))),
{
    lemma_helper_scope(lo, hi);
    let env = helper_scope(lo, hi);
    let lo_t = Term::Var("shapeLo"@);
    let hi_t = Term::Var("shapeHi"@);
    let span = Term::Primitive { op: Primitive::Sub, args: seq![hi_t, lo_t] };
    crate::semantics::lemma_wrapped_fits(hi - lo);
    assert(evaluated(defs, lo_t, env, fuel) == Some(Value::Num(lo)));
    assert(evaluated(defs, hi_t, env, fuel) == Some(Value::Num(hi)));
    assert(evaluated(defs, span, env, fuel) == Some(Value::Num(hi - lo)));
    let half = Term::Primitive { op: Primitive::Div, args: seq![span, Term::Number(2)] };
    let q = (hi - lo) / 2;
    assert(crate::ir::quotient(hi - lo, 2) == q);
    crate::semantics::lemma_wrapped_fits(q);
    assert(evaluated(defs, Term::Number(2), env, fuel) == Some(Value::Num(2)));
    assert(evaluated(defs, half, env, fuel) == Some(Value::Num(q)));
    let mid = lo + q;
    let midpoint = Term::Primitive { op: Primitive::Add, args: seq![lo_t, half] };
    crate::semantics::lemma_wrapped_fits(mid);
    assert(evaluated(defs, midpoint, env, fuel) == Some(Value::Num(mid)));
    let bs = seq![("shapeMid"@, midpoint)];
    assert(bs.drop_last() =~= Seq::<(Seq<char>, Term)>::empty());
    assert(bs.last() == ("shapeMid"@, midpoint));
    assert(bound_in(defs, bs.drop_last(), env, fuel) == Some(env));
}

/// The two recursive calls of a helper over `lo < hi`, once the midpoint is
/// bound, run the helper's body over the two halves with one call less.
proof fn lemma_halves(defs: Seq<DefTerm>, name: Seq<char>, red: RedTerm, lo: int, hi: int, fuel: nat)
    requires
        find_def(defs, name) == Some(balanced_def(name, red)),
        0 <= lo < hi <= 8388607,
    ensures
        ({
            let mid = lo + (hi - lo) / 2;
            let env2 = helper_scope(lo, hi).insert("shapeMid"@, Value::Num(mid));
            let left = Term::Call { callee: name, args: seq![Term::Var("shapeLo"@), Term::Var("shapeMid"@)] };
            let right = Term::Call {
                callee: name,
                args: seq![
                    Term::Primitive { op: Primitive::Add, args: seq![Term::Var("shapeMid"@), Term::Number(1)] },
                    Term::Var("shapeHi"@),
                ],
            };
            &&& fuel > 0 ==> evaluated(defs, left, env2, fuel) == evaluated(
                defs,
                balanced_body(name, red),
                helper_scope(lo, mid),
                (fuel - 1) as nat,
            )
            &&& fuel > 0 ==> evaluated(defs, right, env2, fuel) == evaluated(
                defs,
                balanced_body(name, red),
                helper_scope(mid + 1, hi),
                (fuel - 1) as nat,
            )
            &&& fuel == 0 ==> evaluated(defs, left, env2, fuel) is None
        }),
{
    lemma_helper_scope(lo, hi);
    let mid = lo + (hi - lo) / 2;
    let env2 = helper_scope(lo, hi).insert("shapeMid"@, Value::Num(mid));
    let lo_t = Term::Var("shapeLo"@);
    let hi_t = Term::Var("shapeHi"@);
    let mid_t = Term::Var("shapeMid"@);
    assert(evaluated(defs, lo_t, env2, fuel) == Some(Value::Num(lo)));
    assert(evaluated(defs, hi_t, env2, fuel) == Some(Value::Num(hi)));
    assert(evaluated(defs, mid_t, env2, fuel) == Some(Value::Num(mid)));
    let next = Term::Primitive { op: Primitive::Add, args: seq![mid_t, Term::Number(1)] };
    crate::semantics::lemma_wrapped_fits(mid + 1);
    assert(evaluated(defs, Term::Number(1), env2, fuel) == Some(Value::Num(1)));
    assert(evaluated(defs, next, env2, fuel) == Some(Value::Num(mid + 1)));
    let la = seq![lo_t, mid_t];
    let ra = seq![next, hi_t];
    lemma_evaluated_pair(defs, la, env2, fuel);
    lemma_evaluated_pair(defs, ra, env2, fuel);
    assert(evaluated_all(defs, la, env2, fuel) == Some(seq![Value::Num(lo), Value::Num(mid)]));
    assert(evaluated_all(defs, ra, env2, fuel) == Some(seq![Value::Num(mid + 1), Value::Num(hi)]));
}

/// The helper's body on `[lo, hi]` computes, wrapped, the fold of every
/// element of the range, each of which has a value.
#[verifier::rlimit(100)]
proof fn lemma_balanced_body_value(
    defs: Seq<DefTerm>,
    name: Seq<char>,
    red: RedTerm,
    lo: int,
    hi: int,
    fuel: nat,
)
    requires
        find_def(defs, name) == Some(balanced_def(name, red)),
        red.combiner == Primitive::Add || red.combiner == Primitive::Mul,
        reads_only(red.element, red.params[red.counter]),
        !binders_of(red.element).contains(red.params[red.counter]),
        !binders_of(red.element).contains("shapeLo"@),
        0 <= lo <= 8388607,
        0 <= hi <= 8388607,
        evaluated(defs, balanced_body(name, red), helper_scope(lo, hi), fuel) is Some,
    ensures
        forall|i: int| lo <= i <= hi ==> (#[trigger] leaf_at(defs, red, i, fuel)) is Some,
        wrapped(number_of(evaluated(defs, balanced_body(name, red), helper_scope(lo, hi), fuel).unwrap()))
            == folded_range(defs, red, lo, hi, fuel),
    decreases fuel,
{
    lemma_helper_scope(lo, hi);
    let op = red.combiner;
    let env = helper_scope(lo, hi);
    let lo_t = Term::Var("shapeLo"@);
    let hi_t = Term::Var("shapeHi"@);
    let body = balanced_body(name, red);
    let v = evaluated(defs, body, env, fuel).unwrap();
    assert(evaluated(defs, lo_t, env, fuel) == Some(Value::Num(lo)));
    assert(evaluated(defs, hi_t, env, fuel) == Some(Value::Num(hi)));
    let c1 = Term::Primitive { op: Primitive::Gt, args: seq![lo_t, hi_t] };
    let c2 = Term::Primitive { op: Primitive::Eq, args: seq![lo_t, hi_t] };
    let leaf = substitute(red.element, red.params[red.counter], lo_t);
    let mid_t = Term::Var("shapeMid"@);
    let midpoint = Term::Primitive {
        op: Primitive::Add,
        args: seq![
            lo_t,
            Term::Primitive {
                op: Primitive::Div,
                args: seq![Term::Primitive { op: Primitive::Sub, args: seq![hi_t, lo_t] }, Term::Number(2)],
            },
        ],
    };
    let left = Term::Call { callee: name, args: seq![lo_t, mid_t] };
    let right = Term::Call {
        callee: name,
        args: seq![Term::Primitive { op: Primitive::Add, args: seq![mid_t, Term::Number(1)] }, hi_t],
    };
    let whole = combine_term(op, left, right);
    let bs = seq![("shapeMid"@, midpoint)];
    let descend = Term::Let { bindings: bs, body: Box::new(whole) };
    let inner = Term::If { condition: Box::new(c2), then_branch: Box::new(leaf), else_branch: Box::new(descend) };
    assert(body == Term::If {
        condition: Box::new(c1),
        then_branch: Box::new(identity_term(op)),
        else_branch: Box::new(inner),
    });
    assert(evaluated(defs, c1, env, fuel) == Some(flag(lo > hi)));
    if lo > hi {
        assert(evaluated(defs, identity_term(op), env, fuel) == Some(Value::Num(identity_of(op)))) by {
            if op is Mul {
                assert(identity_term(op) == Term::Number(1));
            } else {
                assert(identity_term(op) == Term::Number(0));
            }
        }
        assert(v == Value::Num(identity_of(op)));
        crate::semantics::lemma_wrapped_fits(identity_of(op));
    } else {
        assert(evaluated(defs, c2, env, fuel) == Some(flag(lo == hi)));
        assert(evaluated(defs, body, env, fuel) == evaluated(defs, inner, env, fuel));
        if lo == hi {
            assert(v == evaluated(defs, leaf, env, fuel).unwrap());
            let c = red.params[red.counter];
            let e2 = map![c => Value::Num(lo)];
            assert(e2.contains_key(c) && e2[c] == Value::Num(lo));
            lemma_substituted_reads(defs, red.element, c, "shapeLo"@, env, e2, fuel);
            assert(leaf_at(defs, red, lo, fuel) == Some(v));
            assert(folded_range(defs, red, lo, lo - 1, fuel) == identity_of(op));
            lemma_combined_identity(op, number_of(v));
        } else {
            let mid = lo + (hi - lo) / 2;
            let env2 = env.insert("shapeMid"@, Value::Num(mid));
            lemma_midpoint_binding(defs, lo, hi, fuel);
            lemma_halves(defs, name, red, lo, hi, fuel);
            assert(evaluated(defs, inner, env, fuel) == evaluated(defs, descend, env, fuel));
            assert(evaluated(defs, descend, env, fuel) == evaluated(defs, whole, env2, fuel));
            assert(v == evaluated(defs, whole, env2, fuel).unwrap());
            assert(evaluated(defs, left, env2, fuel) is Some);
            let f1 = (fuel - 1) as nat;
            lemma_balanced_body_value(defs, name, red, lo, mid, f1);
            lemma_balanced_body_value(defs, name, red, mid + 1, hi, f1);
            let nl = number_of(evaluated(defs, left, env2, fuel).unwrap());
            let nr = number_of(evaluated(defs, right, env2, fuel).unwrap());
            assert(v == Value::Num(combined(op, nl, nr)));
            lemma_range_more_fuel(defs, red, lo, mid, f1, fuel);
            lemma_range_more_fuel(defs, red, mid + 1, hi, f1, fuel);
            assert forall|i: int| lo <= i <= hi implies (#[trigger] leaf_at(defs, red, i, fuel)) is Some by {
                assert(leaf_at(defs, red, i, f1) is Some);
            }
            lemma_combined_wrapped(op, nl, nr);
            lemma_combined_wrapped(op, wrapped(nl), nr);
            lemma_wrapped_range(combined(op, nl, nr));
            lemma_range_split(defs, red, lo, mid, hi, fuel);
        }
    }
}

/// A balanced helper, called on any range `[lo, hi]` of counters the
/// target can hold, combines every element of that range exactly once:
/// when the call has a value, each element of the range has one, and the
/// call's number is the fold of all of them, one after another from the
/// combiner's identity, as the chain written over the range computes it.
/// An empty range gives the identity.
pub proof fn lemma_balanced_helper_value(
    defs: Seq<DefTerm>,
    name: Seq<char>,
    red: RedTerm,
    lo: int,
    hi: int,
    env: Map<Seq<char>, Value>,
    fuel: nat,
)
    requires
        find_def(defs, name) == Some(balanced_def(name, red)),
        red.combiner == Primitive::Add || red.combiner == Primitive::Mul,
        reads_only(red.element, red.params[red.counter]),
        !binders_of(red.element).contains(red.params[red.counter]),
        !binders_of(red.element).contains("shapeLo"@),
        0 <= lo <= 8388607,
        0 <= hi <= 8388607,
        evaluated(
            defs,
            Term::Call { callee: name, args: seq![Term::Number(lo as i64), Term::Number(hi as i64)] },
            env,
            fuel,
        ) is Some,
    ensures
        forall|i: int| lo <= i <= hi ==> (#[trigger] leaf_at(defs, red, i, fuel)) is Some,
        wrapped(
            number_of(
                evaluated(
                    defs,
                    Term::Call { callee: name, args: seq![Term::Number(lo as i64), Term::Number(hi as i64)] },
                    env,
                    fuel,
                ).unwrap(),
            ),
        ) == folded_range(defs, red, lo, hi, fuel),
{
    let args = seq![Term::Number(lo as i64), Term::Number(hi as i64)];
    lemma_evaluated_pair(defs, args, env, fuel);
    assert(evaluated(defs, args[0], env, fuel) == Some(Value::Num(lo)));
    assert(evaluated(defs, args[1], env, fuel) == Some(Value::Num(hi)));
    let f1 = (fuel - 1) as nat;
    assert(evaluated(defs, Term::Call { callee: name, args }, env, fuel) == evaluated(
        defs,
        balanced_body(name, red),
        helper_scope(lo, hi),
        f1,
    ));
    lemma_balanced_body_value(defs, name, red, lo, hi, f1);
    lemma_range_more_fuel(defs, red, lo, hi, f1, fuel);
}

/// The chain of a segment-form reduction, run from the combiner's identity
/// over `[lo, hi]`, computes the fold of its elements over that range.
proof fn lemma_chain_fold(defs: Seq<DefTerm>, d: DefTerm, red: RedTerm, lo: int, hi: int, fuel: nat)
    requires
        segment_setup(defs, d, red),
        0 <= lo <= hi < 8388607,
        run(defs, d, lo, hi, Value::Num(identity_of(red.combiner)), fuel) is Some,
    ensures
        forall|i: int| lo <= i <= hi ==> (#[trigger] leaf_at(defs, red, i, fuel)) is Some,
        run(defs, d, lo, hi, Value::Num(identity_of(red.combiner)), fuel) == Some(
            Value::Num(folded_range(defs, red, lo, hi, fuel)),
        ),
    decreases hi - lo,
{
    lemma_segment_body(d, red);
    let op = red.combiner;
    let id = Value::Num(identity_of(op));
    assert(red.counter == 0);
    assert forall|i: int| #![trigger leaf_at(defs, red, i, fuel)] true implies leaf_at(defs, red, i, fuel)
        == element_at(defs, d, red, i, fuel) by {}
    if lo == hi {
        lemma_run_step(defs, d, red, lo, hi, id, fuel);
        let g = element_at(defs, d, red, lo, fuel).unwrap();
        lemma_wrapped_small(lo + 1);
        let t = combined(op, identity_of(op), number_of(g));
        lemma_run_step(defs, d, red, lo + 1, hi, Value::Num(t), (fuel - 1) as nat);
        assert(folded_range(defs, red, lo, lo - 1, fuel) == identity_of(op));
    } else {
        lemma_run_split(defs, d, red, lo, hi - 1, hi, fuel);
        lemma_chain_fold(defs, d, red, lo, hi - 1, fuel);
        lemma_chain_fold(defs, d, red, hi, hi, fuel);
        let a = folded_range(defs, red, lo, hi - 1, fuel);
        let g = number_of(leaf_at(defs, red, hi, fuel).unwrap());
        assert(folded_range(defs, red, hi, hi - 1, fuel) == identity_of(op));
        lemma_combined_identity(op, g);
        lemma_combined_wrapped(op, a, g);
    }
}

/// The balanced helper of a reduction written in segment form gives what
/// the chain as written gives over the same range from the combiner's
/// identity: wherever both the helper call and the chain have a value, the
/// helper's number, wrapped, is the chain's.
pub proof fn lemma_balanced_helper_matches_chain(
    defs: Seq<DefTerm>,
    d: DefTerm,
    red: RedTerm,
    name: Seq<char>,
    lo: int,
    hi: int,
    env: Map<Seq<char>, Value>,
    fuel: nat,
    chain_fuel: nat,
)
    requires
        segment_setup(defs, d, red),
        find_def(defs, name) == Some(balanced_def(name, red)),
        !binders_of(red.element).contains(red.params[red.counter]),
        !binders_of(red.element).contains("shapeLo"@),
        0 <= lo <= hi < 8388607,
        evaluated(
            defs,
            Term::Call { callee: name, args: seq![Term::Number(lo as i64), Term::Number(hi as i64)] },
            env,
            fuel,
        ) is Some,
        run(defs, d, lo, hi, Value::Num(identity_of(red.combiner)), chain_fuel) is Some,
    ensures
        run(defs, d, lo, hi, Value::Num(identity_of(red.combiner)), chain_fuel) == Some(
            Value::Num(
                wrapped(
                    number_of(
                        evaluated(
                            defs,
                            Term::Call { callee: name, args: seq![Term::Number(lo as i64), Term::Number(hi as i64)] },
                            env,
                            fuel,
                        ).unwrap(),
                    ),
                ),
            ),
        ),
{
    lemma_segment_body(d, red);
    assert(red.counter == 0);
    lemma_balanced_helper_value(defs, name, red, lo, hi, env, fuel);
    lemma_chain_fold(defs, d, red, lo, hi, chain_fuel);
    let top: nat = if fuel <= chain_fuel { chain_fuel } else { fuel };
    lemma_range_more_fuel(defs, red, lo, hi, fuel, top);
    lemma_range_more_fuel(defs, red, lo, hi, chain_fuel, top);
}

} // verus!
