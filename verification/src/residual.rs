//! What partial evaluation leaves behind computes what the program computed.
//! A residual runs in an environment that lacks the names whose literal
//! values were substituted; the original runs with them bound. Inlining a
//! known call spends no call of the evaluator's budget, so the residual
//! never needs more fuel than the original did.
use crate::ir::{is_value, node_count, DefTerm, ProgramTerm, Term};
use crate::peval::{
    all_values, clamp, find_def, lookup, pe, pe_bindings, pe_seq, pevaled, residual_bindings, rewritten_body, zip_env,
    Env, MAX_NODES,
};
use crate::semantics::{
    bound_in, bound_names, bound_params, evaluated, evaluated_all, keeps_definitions, lemma_evaluated_all_each,
    lemma_find_def_index, lemma_more_fuel, lemma_overlay_lookup, lemma_refined_defs_keep_value, lemma_refines_keeps,
    lemma_unshadowed_each, lemma_unshadowed_fewer, lemma_wrapped_fits, refines_bodies, unshadowed, unshadowed_all,
    unshadowed_bindings, within, Value,
};
use vstd::prelude::*;

verus! {

/// The value a literal stands for, the same in every scope.
pub open spec fn value_of(t: Term) -> Option<Value> {
    evaluated(Seq::empty(), t, Map::empty(), 0)
}

proof fn lemma_value_evaluates(defs: Seq<DefTerm>, t: Term, e: Map<Seq<char>, Value>, fuel: nat)
    requires
        is_value(t),
    ensures
        evaluated(defs, t, e, fuel) == value_of(t),
    decreases t,
{
    if let Term::Cons(h, tl) = t {
        lemma_value_evaluates(defs, *h, e, fuel);
        lemma_value_evaluates(Seq::empty(), *h, Map::empty(), 0);
        lemma_value_evaluates(defs, *tl, e, fuel);
        lemma_value_evaluates(Seq::empty(), *tl, Map::empty(), 0);
    }
}

/// `orig` is where the original term runs and `res` where its residual
/// runs: a name `env` holds a literal for has that literal's value in
/// `orig`, and every other name is bound alike in both.
pub open spec fn related(orig: Map<Seq<char>, Value>, res: Map<Seq<char>, Value>, env: Env) -> bool {
    forall|n: Seq<char>|
        match #[trigger] lookup(env, n) {
            Some(v) => is_value(v) && orig.contains_key(n) && value_of(v) == Some(orig[n]),
            None => orig.contains_key(n) == res.contains_key(n) && (orig.contains_key(n) ==> orig[n] == res[n]),
        }
}

/// No `let` in a body rebinds one of its definition's parameters or a name
/// bound around it.
pub open spec fn hygienic_definitions(defs: Seq<DefTerm>) -> bool {
    forall|i: int| 0 <= i < defs.len() ==> unshadowed(#[trigger] defs[i].body, defs[i].params)
}

/// `big` binds every name `small` binds, to the same value.
pub open spec fn extends(big: Map<Seq<char>, Value>, small: Map<Seq<char>, Value>) -> bool {
    forall|n: Seq<char>| #[trigger] small.contains_key(n) ==> big.contains_key(n) && big[n] == small[n]
}

/// A term that runs in an environment runs to the same value in any
/// environment that binds more.
proof fn lemma_larger_env(
    defs: Seq<DefTerm>,
    t: Term,
    small: Map<Seq<char>, Value>,
    big: Map<Seq<char>, Value>,
    fuel: nat,
)
    requires
        extends(big, small),
        evaluated(defs, t, small, fuel) is Some,
    ensures
        evaluated(defs, t, big, fuel) == evaluated(defs, t, small, fuel),
    decreases fuel, t,
{
    match t {
        Term::Primitive { op, args } => {
            lemma_larger_env(defs, args[0], small, big, fuel);
            lemma_larger_env(defs, args[1], small, big, fuel);
        },
        Term::Call { callee, args } => lemma_larger_env_all(defs, args, small, big, fuel),
        Term::If { condition, then_branch, else_branch } => {
            lemma_larger_env(defs, *condition, small, big, fuel);
            if let Some(Value::Num(c)) = evaluated(defs, *condition, small, fuel) {
                if c == 0 {
                    lemma_larger_env(defs, *else_branch, small, big, fuel);
                } else {
                    lemma_larger_env(defs, *then_branch, small, big, fuel);
                }
            }
        },
        Term::Let { bindings, body } => {
            lemma_larger_env_bindings(defs, bindings, small, big, fuel);
            let i1 = bound_in(defs, bindings, small, fuel).unwrap();
            let i2 = bound_in(defs, bindings, big, fuel).unwrap();
            lemma_larger_env(defs, *body, i1, i2, fuel);
        },
        Term::Cons(h, tl) => {
            lemma_larger_env(defs, *h, small, big, fuel);
            lemma_larger_env(defs, *tl, small, big, fuel);
        },
        Term::Car(v) => lemma_larger_env(defs, *v, small, big, fuel),
        Term::Cdr(v) => lemma_larger_env(defs, *v, small, big, fuel),
        Term::Null(v) => lemma_larger_env(defs, *v, small, big, fuel),
        _ => {},
    }
}

proof fn lemma_larger_env_all(
    defs: Seq<DefTerm>,
    s: Seq<Term>,
    small: Map<Seq<char>, Value>,
    big: Map<Seq<char>, Value>,
    fuel: nat,
)
    requires
        extends(big, small),
        evaluated_all(defs, s, small, fuel) is Some,
    ensures
        evaluated_all(defs, s, big, fuel) == evaluated_all(defs, s, small, fuel),
    decreases fuel, s,
{
    if s.len() > 0 {
        lemma_larger_env_all(defs, s.drop_last(), small, big, fuel);
        lemma_larger_env(defs, s.last(), small, big, fuel);
    }
}

proof fn lemma_larger_env_bindings(
    defs: Seq<DefTerm>,
    s: Seq<(Seq<char>, Term)>,
    small: Map<Seq<char>, Value>,
    big: Map<Seq<char>, Value>,
    fuel: nat,
)
    requires
        extends(big, small),
        bound_in(defs, s, small, fuel) is Some,
    ensures
        bound_in(defs, s, big, fuel) is Some,
        extends(bound_in(defs, s, big, fuel).unwrap(), bound_in(defs, s, small, fuel).unwrap()),
    decreases fuel, s,
{
    if s.len() > 0 {
        lemma_larger_env_bindings(defs, s.drop_last(), small, big, fuel);
        let i1 = bound_in(defs, s.drop_last(), small, fuel).unwrap();
        let i2 = bound_in(defs, s.drop_last(), big, fuel).unwrap();
        lemma_larger_env(defs, s.last().1, i1, i2, fuel);
        let v = evaluated(defs, s.last().1, i1, fuel).unwrap();
        assert forall|n: Seq<char>| #[trigger] i1.insert(s.last().0, v).contains_key(n) implies i2.insert(
            s.last().0,
            v,
        ).contains_key(n) && i2.insert(s.last().0, v)[n] == i1.insert(s.last().0, v)[n] by {
            if n != s.last().0 {
                assert(i1.contains_key(n));
            }
        }
    }
}

proof fn lemma_zip_env_names(params: Seq<Seq<char>>, a: Seq<Term>)
    requires
        params.len() == a.len(),
    ensures
        bound_names(zip_env(params, a)) == params,
    decreases params.len(),
{
    if params.len() > 0 {
        lemma_zip_env_names(params.drop_last(), a.drop_last());
        assert(zip_env(params, a).drop_last() =~= zip_env(params.drop_last(), a.drop_last()));
    } else {
        assert(zip_env(params, a) =~= Seq::empty());
    }
}

/// Binding the parameters to the argument values on top of `res` relates
/// to `res` under the parameters bound to the argument literals.
proof fn lemma_zip_related(params: Seq<Seq<char>>, a: Seq<Term>, vs: Seq<Value>, res: Map<Seq<char>, Value>)
    requires
        params.len() == a.len(),
        vs.len() == a.len(),
        forall|j: int| 0 <= j < a.len() ==> is_value(#[trigger] a[j]) && value_of(a[j]) == Some(vs[j]),
    ensures
        related(res.union_prefer_right(bound_params(params, vs)), res, zip_env(params, a)),
    decreases params.len(),
{
    let env = zip_env(params, a);
    let o = res.union_prefer_right(bound_params(params, vs));
    if params.len() == 0 {
        assert(env =~= Seq::empty());
        assert(o =~= res);
        assert forall|n: Seq<char>| #[trigger] lookup(env, n) is None by {}
    } else {
        let p0 = params.drop_last();
        let a0 = a.drop_last();
        let v0 = vs.drop_last();
        assert forall|j: int| 0 <= j < a0.len() implies is_value(#[trigger] a0[j]) && value_of(a0[j]) == Some(v0[j]) by {
            assert(a0[j] == a[j] && v0[j] == vs[j]);
        }
        lemma_zip_related(p0, a0, v0, res);
        let o0 = res.union_prefer_right(bound_params(p0, v0));
        assert(env.drop_last() =~= zip_env(p0, a0));
        assert(env.last() == (params.last(), a.last()));
        assert(o =~= o0.insert(params.last(), vs.last()));
        assert(is_value(a[a.len() - 1]) && value_of(a[a.len() - 1]) == Some(vs[vs.len() - 1]));
        assert forall|n: Seq<char>|
            match #[trigger] lookup(env, n) {
                Some(v) => is_value(v) && o.contains_key(n) && value_of(v) == Some(o[n]),
                None => o.contains_key(n) == res.contains_key(n) && (o.contains_key(n) ==> o[n] == res[n]),
            } by {
            if n != params.last() {
                assert(lookup(env, n) == lookup(zip_env(p0, a0), n));
                match lookup(zip_env(p0, a0), n) {
                    Some(v) => {},
                    None => {},
                }
            }
        }
    }
}

/// Every term of `s` has a value, so all of them together do.
proof fn lemma_evaluated_all_some(defs: Seq<DefTerm>, s: Seq<Term>, e: Map<Seq<char>, Value>, fuel: nat)
    requires
        forall|j: int| 0 <= j < s.len() ==> evaluated(defs, #[trigger] s[j], e, fuel) is Some,
    ensures
        evaluated_all(defs, s, e, fuel) is Some,
    decreases s.len(),
{
    if s.len() > 0 {
        let s0 = s.drop_last();
        assert forall|j: int| 0 <= j < s0.len() implies evaluated(defs, #[trigger] s0[j], e, fuel) is Some by {
            assert(s0[j] == s[j]);
        }
        lemma_evaluated_all_some(defs, s0, e, fuel);
        assert(evaluated(defs, s[s.len() - 1], e, fuel) is Some);
    }
}

/// Rewriting a term that runs: its residual runs to the same value.
proof fn lemma_pe_keeps_value(
    defs: Seq<DefTerm>,
    pf: nat,
    t: Term,
    env: Env,
    scope: Seq<Seq<char>>,
    orig: Map<Seq<char>, Value>,
    res: Map<Seq<char>, Value>,
    fuel: nat,
)
    requires
        hygienic_definitions(defs),
        related(orig, res, env),
        within(bound_names(env), scope),
        unshadowed(t, scope),
        evaluated(defs, t, orig, fuel) is Some,
    ensures
        evaluated(defs, pe(defs, pf, t, env).0, res, fuel) == evaluated(defs, t, orig, fuel),
    decreases pf, t,
{
    broadcast use vstd::seq_lib::lemma_seq_concat_contains_all_elements;

    match t {
        Term::Var(name) => {
            if let Some(v) = lookup(env, name) {
                lemma_value_evaluates(defs, v, res, fuel);
            }
        },
        Term::Primitive { op, args } => {
            lemma_unshadowed_each(args, scope);
            assert(evaluated(defs, args[0], orig, fuel) is Some && evaluated(defs, args[1], orig, fuel) is Some);
            lemma_evaluated_all_some(defs, args, orig, fuel);
            lemma_pe_seq_keeps_values(defs, pf, args, env, scope, orig, res, fuel);
            let a = pe_seq(defs, pf, args, env).0;
            lemma_evaluated_all_each(defs, args, orig, fuel);
            lemma_evaluated_all_each(defs, a, res, fuel);
            assert(evaluated(defs, a[0], res, fuel) == evaluated(defs, args[0], orig, fuel));
            assert(evaluated(defs, a[1], res, fuel) == evaluated(defs, args[1], orig, fuel));
            if let (Term::Number(l), Term::Number(r)) = (a[0], a[1]) {
                if let Some(v) = crate::ir::folded(op, l as int, r as int) {
                    lemma_wrapped_fits(v);
                }
            }
        },
        Term::Call { callee, args } => {
            lemma_pe_seq_keeps_values(defs, pf, args, env, scope, orig, res, fuel);
            let (a, f1) = pe_seq(defs, pf, args, env);
            let f = clamp(f1, pf);
            let vs = evaluated_all(defs, args, orig, fuel).unwrap();
            if f != 0 && all_values(a) {
                if let Some(d) = find_def(defs, callee) {
                    if d.params.len() == a.len() {
                        lemma_find_def_index(defs, callee);
                        let k = choose|k: int| 0 <= k < defs.len() && find_def(defs, callee) == Some(defs[k]);
                        assert(unshadowed(defs[k].body, defs[k].params));
                        lemma_evaluated_all_each(defs, a, res, fuel);
                        assert forall|j: int| 0 <= j < a.len() implies is_value(#[trigger] a[j]) && value_of(a[j])
                            == Some(vs[j]) by {
                            lemma_value_evaluates(defs, a[j], res, fuel);
                        }
                        lemma_zip_related(d.params, a, vs, res);
                        lemma_zip_env_names(d.params, a);
                        let bp = bound_params(d.params, vs);
                        let o2 = res.union_prefer_right(bp);
                        assert(extends(o2, bp));
                        let f0 = (fuel - 1) as nat;
                        lemma_larger_env(defs, d.body, bp, o2, f0);
                        lemma_more_fuel(defs, d.body, o2, f0, fuel);
                        assert(within(bound_names(zip_env(d.params, a)), d.params));
                        lemma_pe_keeps_value(defs, (f - 1) as nat, d.body, zip_env(d.params, a), d.params, o2, res, fuel);
                    }
                }
            }
        },
        Term::If { condition, then_branch, else_branch } => {
            lemma_pe_keeps_value(defs, pf, *condition, env, scope, orig, res, fuel);
            let (c, f1) = pe(defs, pf, *condition, env);
            let cv = evaluated(defs, *condition, orig, fuel);
            if let Some(Value::Num(n)) = cv {
                if n == 0 {
                    lemma_pe_keeps_value(defs, clamp(f1, pf), *else_branch, env, scope, orig, res, fuel);
                } else {
                    lemma_pe_keeps_value(defs, clamp(f1, pf), *then_branch, env, scope, orig, res, fuel);
                }
                match c {
                    Term::Bool(taken) => {},
                    Term::Number(m) => {},
                    _ => {
                        let (x, f2) = pe(defs, clamp(f1, pf), *then_branch, env);
                        if n == 0 {
                            lemma_pe_keeps_value(defs, clamp(f2, pf), *else_branch, env, scope, orig, res, fuel);
                        }
                    },
                }
            }
        },
        Term::Let { bindings, body } => {
            lemma_pe_bindings_keep_values(defs, pf, bindings, env, scope, orig, res, fuel);
            let (kept, inner, f1) = pe_bindings(defs, pf, bindings, env);
            let o2 = bound_in(defs, bindings, orig, fuel).unwrap();
            let r2 = bound_in(defs, residual_bindings(kept), res, fuel).unwrap();
            lemma_pe_keeps_value(defs, clamp(f1, pf), *body, inner, scope + bound_names(bindings), o2, r2, fuel);
        },
        Term::Cons(h, tl) => {
            lemma_pe_keeps_value(defs, pf, *h, env, scope, orig, res, fuel);
            let f1 = pe(defs, pf, *h, env).1;
            lemma_pe_keeps_value(defs, clamp(f1, pf), *tl, env, scope, orig, res, fuel);
        },
        Term::Car(v) => lemma_pe_keeps_value(defs, pf, *v, env, scope, orig, res, fuel),
        Term::Cdr(v) => lemma_pe_keeps_value(defs, pf, *v, env, scope, orig, res, fuel),
        Term::Null(v) => lemma_pe_keeps_value(defs, pf, *v, env, scope, orig, res, fuel),
        _ => {},
    }
}

proof fn lemma_pe_seq_keeps_values(
    defs: Seq<DefTerm>,
    pf: nat,
    s: Seq<Term>,
    env: Env,
    scope: Seq<Seq<char>>,
    orig: Map<Seq<char>, Value>,
    res: Map<Seq<char>, Value>,
    fuel: nat,
)
    requires
        hygienic_definitions(defs),
        related(orig, res, env),
        within(bound_names(env), scope),
        unshadowed_all(s, scope),
        evaluated_all(defs, s, orig, fuel) is Some,
    ensures
        pe_seq(defs, pf, s, env).0.len() == s.len(),
        evaluated_all(defs, pe_seq(defs, pf, s, env).0, res, fuel) == evaluated_all(defs, s, orig, fuel),
    decreases pf, s,
{
    if s.len() > 0 {
        lemma_pe_seq_keeps_values(defs, pf, s.drop_last(), env, scope, orig, res, fuel);
        let (front, f1) = pe_seq(defs, pf, s.drop_last(), env);
        lemma_pe_keeps_value(defs, clamp(f1, pf), s.last(), env, scope, orig, res, fuel);
        let x = pe(defs, clamp(f1, pf), s.last(), env).0;
        assert(front.push(x).drop_last() =~= front);
    }
}

proof fn lemma_pe_bindings_keep_values(
    defs: Seq<DefTerm>,
    pf: nat,
    s: Seq<(Seq<char>, Term)>,
    env: Env,
    scope: Seq<Seq<char>>,
    orig: Map<Seq<char>, Value>,
    res: Map<Seq<char>, Value>,
    fuel: nat,
)
    requires
        hygienic_definitions(defs),
        related(orig, res, env),
        within(bound_names(env), scope),
        unshadowed_bindings(s, scope),
        bound_in(defs, s, orig, fuel) is Some,
    ensures
        ({
            let (kept, inner, f1) = pe_bindings(defs, pf, s, env);
            &&& bound_in(defs, residual_bindings(kept), res, fuel) is Some
            &&& related(
                bound_in(defs, s, orig, fuel).unwrap(),
                bound_in(defs, residual_bindings(kept), res, fuel).unwrap(),
                inner,
            )
            &&& within(bound_names(inner), scope + bound_names(s))
        }),
    decreases pf, s,
{
    broadcast use vstd::seq_lib::lemma_seq_concat_contains_all_elements;

    if s.len() == 0 {
        assert(residual_bindings(s) =~= s);
        assert(scope + bound_names(s) =~= scope);
    } else {
        let s0 = s.drop_last();
        let (x, v0) = s.last();
        lemma_pe_bindings_keep_values(defs, pf, s0, env, scope, orig, res, fuel);
        let (kept0, inner0, f1) = pe_bindings(defs, pf, s0, env);
        let o0 = bound_in(defs, s0, orig, fuel).unwrap();
        let r0 = bound_in(defs, residual_bindings(kept0), res, fuel).unwrap();
        let before = scope + bound_names(s0);
        lemma_pe_keeps_value(defs, clamp(f1, pf), v0, inner0, before, o0, r0, fuel);
        let v = pe(defs, clamp(f1, pf), v0, inner0).0;
        let w = evaluated(defs, v0, o0, fuel).unwrap();
        let o = o0.insert(x, w);
        let kept = kept0.push((x, v));
        assert(kept.drop_last() =~= kept0);
        assert(bound_names(s) == bound_names(s0).push(x));
        assert forall|n: Seq<char>| #[trigger] before.contains(n) implies (scope + bound_names(s)).contains(n) by {
            if !scope.contains(n) {
                let j = choose|j: int| 0 <= j < before.len() && before[j] == n;
                assert(bound_names(s0).contains(n));
                let k = choose|k: int| 0 <= k < bound_names(s0).len() && bound_names(s0)[k] == n;
                assert(bound_names(s)[k] == n);
            }
        }
        assert(within(bound_names(inner0), scope + bound_names(s)));
        lemma_overlay_lookup(Map::empty(), inner0, x);
        assert(lookup(inner0, x) is None);
        if is_value(v) {
            let inner = inner0.push((x, v));
            lemma_value_evaluates(defs, v, r0, fuel);
            assert(inner.drop_last() =~= inner0);
            assert forall|n: Seq<char>|
                match #[trigger] lookup(inner, n) {
                    Some(u) => is_value(u) && o.contains_key(n) && value_of(u) == Some(o[n]),
                    None => o.contains_key(n) == r0.contains_key(n) && (o.contains_key(n) ==> o[n] == r0[n]),
                } by {
                if n != x {
                    assert(lookup(inner, n) == lookup(inner0, n));
                    match lookup(inner0, n) {
                        Some(u) => {},
                        None => {},
                    }
                }
            }
            assert(bound_names(inner) == bound_names(inner0).push(x));
            assert((scope + bound_names(s)).contains(x)) by {
                assert(bound_names(s)[bound_names(s).len() - 1] == x);
            }
            assert(residual_bindings(kept) == residual_bindings(kept0));
            assert(bound_in(defs, s, orig, fuel) == Some(o));
            assert(related(o, r0, inner));
            assert forall|n: Seq<char>| #[trigger] bound_names(inner).contains(n) implies (scope + bound_names(
                s,
            )).contains(n) by {
                if n != x {
                    let j = choose|j: int| 0 <= j < bound_names(inner).len() && bound_names(inner)[j] == n;
                    assert(bound_names(inner0)[j] == n);
                    assert(bound_names(inner0).contains(n));
                }
            }
            assert(pe_bindings(defs, pf, s, env).0 == kept);
            assert(pe_bindings(defs, pf, s, env).1 == inner);
        } else {
            let rk = residual_bindings(kept);
            assert(rk == residual_bindings(kept0).push((x, v)));
            assert(rk.drop_last() =~= residual_bindings(kept0));
            let r = r0.insert(x, w);
            assert forall|n: Seq<char>|
                match #[trigger] lookup(inner0, n) {
                    Some(u) => is_value(u) && o.contains_key(n) && value_of(u) == Some(o[n]),
                    None => o.contains_key(n) == r.contains_key(n) && (o.contains_key(n) ==> o[n] == r[n]),
                } by {
                match lookup(inner0, n) {
                    Some(u) => {},
                    None => {},
                }
            }
            assert(bound_in(defs, s, orig, fuel) == Some(o));
            assert(evaluated(defs, v, r0, fuel) == Some(w));
            assert(bound_in(defs, rk, res, fuel) == Some(r));
            assert(related(o, r, inner0));
            assert(pe_bindings(defs, pf, s, env).0 == kept);
            assert(pe_bindings(defs, pf, s, env).1 == inner0);
        }
    }
}

/// A body partially evaluated, whatever the node ceiling decides, runs to
/// every value that the body runs to.
proof fn lemma_rewritten_keeps_value(
    defs: Seq<DefTerm>,
    pf: nat,
    t: Term,
    scope: Seq<Seq<char>>,
    e: Map<Seq<char>, Value>,
    fuel: nat,
)
    requires
        hygienic_definitions(defs),
        unshadowed(t, scope),
        evaluated(defs, t, e, fuel) is Some,
    ensures
        evaluated(defs, rewritten_body(defs, pf, t), e, fuel) == evaluated(defs, t, e, fuel),
{
    let empty: Env = Seq::empty();
    assert(bound_names(empty) =~= Seq::<Seq<char>>::empty());
    assert forall|n: Seq<char>| #[trigger] lookup(empty, n) is None by {}
    lemma_unshadowed_fewer(t, scope, Seq::empty());
    lemma_pe_keeps_value(defs, pf, t, empty, Seq::empty(), e, e, fuel);
}

/// Partial evaluation never changes a result the program computed, as the
/// module promises: a fold happens only where the target's arithmetic gives
/// the same number, a known call is replaced by what its body computes with
/// the arguments' literal values, and a literal bound by `let` is replaced
/// by its value. When no `let` in a body or in the final expression rebinds
/// a name in scope (a parameter, in a body), the rewritten final
/// expression, calling the rewritten definitions, gives every value the
/// program gave, and so does every rewritten definition.
pub proof fn lemma_pevaled_keeps_result(p: ProgramTerm, pf: nat, env: Map<Seq<char>, Value>, fuel: nat)
    requires
        hygienic_definitions(p.definitions),
        p.body matches Some(b) && unshadowed(b, Seq::empty()) && evaluated(p.definitions, b, env, fuel) is Some,
    ensures
        pevaled(p, pf).body is Some,
        evaluated(pevaled(p, pf).definitions, pevaled(p, pf).body.unwrap(), env, fuel) == evaluated(
            p.definitions,
            p.body.unwrap(),
            env,
            fuel,
        ),
        keeps_definitions(p.definitions, pevaled(p, pf).definitions),
{
    let defs = p.definitions;
    let q = pevaled(p, pf);
    if pf > 0 {
        assert forall|i: int, e: Map<Seq<char>, Value>, f: nat|
            0 <= i < defs.len() && evaluated(defs, defs[i].body, e, f) is Some implies #[trigger] evaluated(
            defs,
            q.definitions[i].body,
            e,
            f,
        ) == evaluated(defs, defs[i].body, e, f) by {
            assert(q.definitions[i].body == rewritten_body(defs, pf, defs[i].body));
            lemma_rewritten_keeps_value(defs, pf, defs[i].body, defs[i].params, e, f);
        }
        assert(refines_bodies(defs, q.definitions));
        let b = p.body.unwrap();
        lemma_rewritten_keeps_value(defs, pf, b, Seq::empty(), env, fuel);
        lemma_refined_defs_keep_value(defs, q.definitions, q.body.unwrap(), env, fuel);
        lemma_refines_keeps(defs, q.definitions);
    } else {
        assert(refines_bodies(defs, q.definitions));
        lemma_refines_keeps(defs, q.definitions);
    }
}

/// Partial evaluation keeps every definition's name and parameters, and
/// each rewritten body, as the rewritten final expression, is either the
/// one it replaces or holds at most `MAX_NODES` nodes.
pub proof fn lemma_pevaled_bounded(p: ProgramTerm, pf: nat)
    ensures
        pevaled(p, pf).definitions.len() == p.definitions.len(),
        forall|i: int|
            0 <= i < p.definitions.len() ==> {
                let d = #[trigger] pevaled(p, pf).definitions[i];
                &&& d.name == p.definitions[i].name
                &&& d.params == p.definitions[i].params
                &&& d.body == p.definitions[i].body || node_count(d.body) <= MAX_NODES as nat
            },
        pevaled(p, pf).body is Some <==> p.body is Some,
        p.body matches Some(b) ==> pevaled(p, pf).body.unwrap() == b || node_count(pevaled(p, pf).body.unwrap())
            <= MAX_NODES as nat,
{
}

} // verus!
