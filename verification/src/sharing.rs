//! What sharing leaves recoverable. One round of sharing at a node binds
//! fresh locals to the repeated numeric trees it found; substituting those
//! values back for the locals, the last binding first, gives exactly the
//! node the round started from, and undoing every introduced `let` of a
//! shared expression, outermost first, gives back the whole expression. So
//! definitions finished with sharing are, once it is undone, exactly the
//! definitions finished without it, and a shared expression that reads only
//! names in scope, rebinds none and keeps its literals in range computes
//! what the expression computed.
use crate::ir::Term;
use crate::optimize::{
    best_of, hoist_all, hoisted, lemma_best_candidate, lemma_hoisted_total, names_in, names_in_all, names_in_bindings,
    numeric_trees, occurs, occurs_any, occurs_bindings, prim_count, shared, shared_all, shared_bindings, swapped,
    swapped_all, swapped_bindings, take_local, total_numeric, total_numeric_all, FreshState,
};
use crate::ir::DefTerm;
use crate::optimize::{
    droppable_term, dropped, dropped_all, dropped_bindings, finish_defs, fold_spec, is_scalar_literal, keep_needed,
    propagated, propagated_all, propagated_bindings, prune, replaced, replaced_all, replaced_bindings, settle_step,
    settled, simplified, simplified_all, simplified_bindings, used_by, with_body,
};
use crate::peval::{lookup, Env};
use crate::semantics::{
    agree_on, all_used, binders_of, binders_of_all, binders_of_bindings, bound_in, bound_names, evaluated,
    evaluated_all, unshadowed, unshadowed_all, unshadowed_bindings, lemma_unshadowed_fewer, lemma_agreeing_scopes, lemma_literals_fit_each_binding, literals_fit, literals_fit_all, literals_fit_bindings, lemma_bound_names_index, lemma_take_local_fresh, within, Value,
};
use crate::shape::{has_call, has_call_any};
use crate::optimize::{uses, uses_all};
use vstd::prelude::*;

verus! {

/// `t` with every variable named `name` replaced by `value`.
pub open spec fn substituted(t: Term, name: Seq<char>, value: Term) -> Term
    decreases t,
{
    match t {
        Term::Var(n) => if n == name {
            value
        } else {
            t
        },
        Term::Primitive { op, args } => Term::Primitive { op, args: substituted_all(args, name, value) },
        Term::Call { callee, args } => Term::Call { callee, args: substituted_all(args, name, value) },
        Term::If { condition, then_branch, else_branch } => Term::If {
            condition: Box::new(substituted(*condition, name, value)),
            then_branch: Box::new(substituted(*then_branch, name, value)),
            else_branch: Box::new(substituted(*else_branch, name, value)),
        },
        Term::Let { bindings, body } => Term::Let {
            bindings: substituted_bindings(bindings, name, value),
            body: Box::new(substituted(*body, name, value)),
        },
        Term::Cons(h, tl) => Term::Cons(
            Box::new(substituted(*h, name, value)),
            Box::new(substituted(*tl, name, value)),
        ),
        Term::Car(v) => Term::Car(Box::new(substituted(*v, name, value))),
        Term::Cdr(v) => Term::Cdr(Box::new(substituted(*v, name, value))),
        Term::Null(v) => Term::Null(Box::new(substituted(*v, name, value))),
        _ => t,
    }
}

pub open spec fn substituted_all(s: Seq<Term>, name: Seq<char>, value: Term) -> Seq<Term>
    decreases s,
{
    if s.len() == 0 {
        s
    } else {
        substituted_all(s.drop_last(), name, value).push(substituted(s.last(), name, value))
    }
}

pub open spec fn substituted_bindings(s: Seq<(Seq<char>, Term)>, name: Seq<char>, value: Term) -> Seq<
    (Seq<char>, Term),
>
    decreases s,
{
    if s.len() == 0 {
        s
    } else {
        substituted_bindings(s.drop_last(), name, value).push((s.last().0, substituted(s.last().1, name, value)))
    }
}

/// `t` with the bindings of `bs` substituted back, the last binding first.
pub open spec fn restored(t: Term, bs: Seq<(Seq<char>, Term)>) -> Term
    decreases bs.len(),
{
    if bs.len() == 0 {
        t
    } else {
        restored(substituted(t, bs.last().0, bs.last().1), bs.drop_last())
    }
}

/// Replacing `c` by a variable that `t` never mentions, then that variable
/// by `c`, gives `t` back.
proof fn lemma_swapped_back(t: Term, c: Term, s: Seq<char>)
    requires
        !names_in(t).contains(s),
    ensures
        substituted(swapped(t, c, Term::Var(s)), s, c) == t,
        forall|m: Seq<char>| #[trigger] names_in(swapped(t, c, Term::Var(s))).contains(m) ==> names_in(t).contains(m) || m == s,
    decreases t,
{
    broadcast use vstd::seq_lib::lemma_seq_concat_contains_all_elements;

    if t == c {
        assert(names_in(Term::Var(s)) == seq![s]);
        assert forall|m: Seq<char>| #[trigger] seq![s].contains(m) implies m == s by {
            let i = choose|i: int| 0 <= i < seq![s].len() && seq![s][i] == m;
            assert(seq![s][i] == s);
        }
    } else {
        match t {
            Term::Var(n) => {
                assert(names_in(t) == seq![n]);
                assert(seq![n][0] == n);
            },
            Term::Primitive { op, args } => {
                lemma_swapped_back_all(args, c, s);
            },
            Term::Call { callee, args } => {
                lemma_swapped_back_all(args, c, s);
            },
            Term::If { condition, then_branch, else_branch } => {
                lemma_swapped_back(*condition, c, s);
                lemma_swapped_back(*then_branch, c, s);
                lemma_swapped_back(*else_branch, c, s);
            },
            Term::Let { bindings, body } => {
                lemma_swapped_back_bindings(bindings, c, s);
                lemma_swapped_back(*body, c, s);
            },
            Term::Cons(h, tl) => {
                lemma_swapped_back(*h, c, s);
                lemma_swapped_back(*tl, c, s);
            },
            Term::Car(v) => lemma_swapped_back(*v, c, s),
            Term::Cdr(v) => lemma_swapped_back(*v, c, s),
            Term::Null(v) => lemma_swapped_back(*v, c, s),
            _ => {},
        }
        let w = swapped(t, c, Term::Var(s));
        assert forall|m: Seq<char>| #[trigger] names_in(w).contains(m) implies names_in(t).contains(m) || m == s by {
            match t {
                Term::Primitive { op, args } => {
                    assert(names_in(w) == names_in_all(swapped_all(args, c, Term::Var(s))));
                },
                Term::Call { callee, args } => {
                    assert(names_in(w) == seq![callee] + names_in_all(swapped_all(args, c, Term::Var(s))));
                },
                Term::If { condition, then_branch, else_branch } => {
                    assert(names_in(w) == names_in(swapped(*condition, c, Term::Var(s))) + names_in(
                        swapped(*then_branch, c, Term::Var(s)),
                    ) + names_in(swapped(*else_branch, c, Term::Var(s))));
                },
                Term::Let { bindings, body } => {
                    assert(names_in(w) == names_in_bindings(swapped_bindings(bindings, c, Term::Var(s))) + names_in(
                        swapped(*body, c, Term::Var(s)),
                    ));
                },
                Term::Cons(h, tl) => {
                    assert(names_in(w) == names_in(swapped(*h, c, Term::Var(s))) + names_in(
                        swapped(*tl, c, Term::Var(s)),
                    ));
                },
                Term::Car(v) => {
                    assert(names_in(w) == names_in(swapped(*v, c, Term::Var(s))));
                },
                Term::Cdr(v) => {
                    assert(names_in(w) == names_in(swapped(*v, c, Term::Var(s))));
                },
                Term::Null(v) => {
                    assert(names_in(w) == names_in(swapped(*v, c, Term::Var(s))));
                },
                _ => {
                    assert(w == t);
                },
            }
        }
    }
}

proof fn lemma_swapped_back_all(a: Seq<Term>, c: Term, s: Seq<char>)
    requires
        !names_in_all(a).contains(s),
    ensures
        substituted_all(swapped_all(a, c, Term::Var(s)), s, c) == a,
        forall|m: Seq<char>| #[trigger] names_in_all(swapped_all(a, c, Term::Var(s))).contains(m) ==> names_in_all(
            a,
        ).contains(m) || m == s,
    decreases a,
{
    broadcast use vstd::seq_lib::lemma_seq_concat_contains_all_elements;

    if a.len() > 0 {
        lemma_swapped_back_all(a.drop_last(), c, s);
        lemma_swapped_back(a.last(), c, s);
        let w = swapped_all(a, c, Term::Var(s));
        let w0 = swapped_all(a.drop_last(), c, Term::Var(s));
        assert(w == w0.push(swapped(a.last(), c, Term::Var(s))));
        assert(w.drop_last() =~= w0);
        assert(w.last() == swapped(a.last(), c, Term::Var(s)));
        assert(substituted_all(w, s, c) =~= a);
        assert forall|m: Seq<char>| #[trigger] names_in_all(w).contains(m) implies names_in_all(a).contains(m)
            || m == s by {
            assert(names_in_all(w) == names_in_all(w0) + names_in(w.last()));
            assert(names_in_all(a) == names_in_all(a.drop_last()) + names_in(a.last()));
        }
    }
}

proof fn lemma_swapped_back_bindings(a: Seq<(Seq<char>, Term)>, c: Term, s: Seq<char>)
    requires
        !names_in_bindings(a).contains(s),
    ensures
        substituted_bindings(swapped_bindings(a, c, Term::Var(s)), s, c) == a,
        forall|m: Seq<char>| #[trigger] names_in_bindings(swapped_bindings(a, c, Term::Var(s))).contains(m)
            ==> names_in_bindings(a).contains(m) || m == s,
    decreases a,
{
    broadcast use vstd::seq_lib::lemma_seq_concat_contains_all_elements;

    if a.len() > 0 {
        lemma_swapped_back_bindings(a.drop_last(), c, s);
        lemma_swapped_back(a.last().1, c, s);
        let w = swapped_bindings(a, c, Term::Var(s));
        let w0 = swapped_bindings(a.drop_last(), c, Term::Var(s));
        assert(w == w0.push((a.last().0, swapped(a.last().1, c, Term::Var(s)))));
        assert(w.drop_last() =~= w0);
        assert(substituted_bindings(w, s, c) =~= a);
        assert forall|m: Seq<char>| #[trigger] names_in_bindings(w).contains(m) implies names_in_bindings(a).contains(
            m,
        ) || m == s by {
            assert(names_in_bindings(w) == names_in_bindings(w0) + seq![a.last().0] + names_in(w.last().1));
            assert(names_in_bindings(a) == names_in_bindings(a.drop_last()) + seq![a.last().0] + names_in(
                a.last().1,
            ));
        }
    }
}

/// Substituting back `a + b` is substituting back `b`, then `a`.
proof fn lemma_restored_concat(t: Term, a: Seq<(Seq<char>, Term)>, b: Seq<(Seq<char>, Term)>)
    ensures
        restored(t, a + b) == restored(restored(t, b), a),
    decreases b.len(),
{
    if b.len() == 0 {
        assert(a + b =~= a);
    } else {
        assert((a + b).drop_last() =~= a + b.drop_last());
        assert((a + b).last() == b.last());
        lemma_restored_concat(substituted(t, b.last().0, b.last().1), a, b.drop_last());
    }
}

/// The rounds of hoisting from `cur` add bindings of fresh names to total
/// numeric trees holding a primitive, and substituting the added bindings
/// back into the final expression gives `cur`.
#[verifier::spinoff_prover]
proof fn lemma_hoisted_restores(cur: Term, bs: Seq<(Seq<char>, Term)>, st: FreshState)
    requires
        st.used.finite(),
        forall|m: Seq<char>| #[trigger] names_in(cur).contains(m) ==> st.used.contains(m),
    ensures
        ({
            let (c2, b2, _) = hoisted(cur, bs, st);
            &&& bs.len() <= b2.len()
            &&& b2.take(bs.len() as int) == bs
            &&& restored(c2, b2.skip(bs.len() as int)) == cur
            &&& forall|i: int| bs.len() <= i < b2.len() ==> !st.used.contains(#[trigger] b2[i].0) && prim_count(
                b2[i].1,
            ) > 0
        }),
    decreases prim_count(cur),
{
    lemma_best_candidate(cur);
    if let Some(c) = best_of(numeric_trees(cur)) {
        let (local, s1) = take_local(st);
        let next = swapped(cur, c, Term::Var(local));
        if prim_count(next) < prim_count(cur) {
            lemma_take_local_fresh(st);
            lemma_swapped_back(cur, c, local);
            let nb = bs.push((local, c));
            lemma_hoisted_restores(next, nb, s1);
            let (c2, b2, _) = hoisted(next, nb, s1);
            assert(hoisted(cur, bs, st) == hoisted(next, nb, s1));
            assert(b2.take(bs.len() as int) =~= nb.take(bs.len() as int));
            assert(nb.take(bs.len() as int) =~= bs);
            assert(b2[bs.len() as int] == nb[bs.len() as int]);
            let rest = b2.skip(bs.len() + 1int);
            assert(b2.skip(bs.len() as int) =~= seq![(local, c)] + rest);
            lemma_restored_concat(c2, seq![(local, c)], rest);
            assert(seq![(local, c)].drop_last() =~= Seq::<(Seq<char>, Term)>::empty());
            assert(rest == b2.skip(nb.len() as int));
            assert(restored(c2, rest) == next);
            assert(restored(next, seq![(local, c)]) == restored(
                substituted(next, local, c),
                Seq::<(Seq<char>, Term)>::empty(),
            ));
            assert(restored(next, seq![(local, c)]) == cur);
        } else {
            assert(hoisted(cur, bs, st) == (cur, bs, st));
            assert(bs.skip(bs.len() as int) =~= Seq::<(Seq<char>, Term)>::empty());
            assert(bs.take(bs.len() as int) =~= bs);
        }
    } else {
        assert(hoisted(cur, bs, st) == (cur, bs, st));
        assert(bs.skip(bs.len() as int) =~= Seq::<(Seq<char>, Term)>::empty());
        assert(bs.take(bs.len() as int) =~= bs);
    }
}

/// Sharing at one node binds only fresh names, each to a total numeric tree
/// (no call, no division) that holds a primitive, and substituting those
/// bindings back, the last first, gives exactly the node it started from.
pub proof fn lemma_hoisting_substitutes_back(cur: Term, st: FreshState)
    requires
        st.used.finite(),
        forall|m: Seq<char>| #[trigger] names_in(cur).contains(m) ==> st.used.contains(m),
    ensures
        ({
            let (body, bs, _) = hoisted(cur, Seq::empty(), st);
            &&& hoist_all(cur, st).0 == if bs.len() == 0 {
                body
            } else {
                Term::Let { bindings: bs, body: Box::new(body) }
            }
            &&& restored(body, bs) == cur
            &&& forall|i: int|
                0 <= i < bs.len() ==> !st.used.contains(#[trigger] bs[i].0) && total_numeric(bs[i].1) && prim_count(
                    bs[i].1,
                ) > 0
        }),
{
    lemma_hoisted_restores(cur, Seq::empty(), st);
    lemma_hoisted_total(cur, Seq::empty(), st);
    let bs = hoisted(cur, Seq::empty(), st).1;
    assert(bs.skip(0) =~= bs);
}

// ---------------------------------------------------------------------------
// Undoing all of sharing
// ---------------------------------------------------------------------------

/// How many `let`s `t` holds.
pub open spec fn let_count(t: Term) -> nat
    decreases t,
{
    match t {
        Term::Let { bindings, body } => 1 + let_count_bindings(bindings) + let_count(*body),
        Term::Primitive { args, .. } => let_count_all(args),
        Term::Call { args, .. } => let_count_all(args),
        Term::If { condition, then_branch, else_branch } => let_count(*condition) + let_count(*then_branch)
            + let_count(*else_branch),
        Term::Cons(h, tl) => let_count(*h) + let_count(*tl),
        Term::Car(v) => let_count(*v),
        Term::Cdr(v) => let_count(*v),
        Term::Null(v) => let_count(*v),
        _ => 0,
    }
}

pub open spec fn let_count_all(s: Seq<Term>) -> nat
    decreases s,
{
    if s.len() == 0 {
        0
    } else {
        let_count_all(s.drop_last()) + let_count(s.last())
    }
}

pub open spec fn let_count_bindings(s: Seq<(Seq<char>, Term)>) -> nat
    decreases s,
{
    if s.len() == 0 {
        0
    } else {
        let_count_bindings(s.drop_last()) + let_count(s.last().1)
    }
}

/// Bindings that sharing introduced: at least one, each naming a local
/// outside `used` and binding a total numeric tree (so no `let` either).
pub open spec fn introduced(bs: Seq<(Seq<char>, Term)>, used: Set<Seq<char>>) -> bool {
    &&& bs.len() > 0
    &&& forall|i: int| #![trigger bs[i]] 0 <= i < bs.len() ==> !used.contains(bs[i].0) && let_count(bs[i].1) == 0
        && total_numeric(bs[i].1)
}

proof fn lemma_substituted_let_count(t: Term, s: Seq<char>, v: Term)
    requires
        let_count(v) == 0,
    ensures
        let_count(substituted(t, s, v)) == let_count(t),
    decreases t,
{
    match t {
        Term::Primitive { args, .. } => lemma_substituted_let_count_all(args, s, v),
        Term::Call { args, .. } => lemma_substituted_let_count_all(args, s, v),
        Term::If { condition, then_branch, else_branch } => {
            lemma_substituted_let_count(*condition, s, v);
            lemma_substituted_let_count(*then_branch, s, v);
            lemma_substituted_let_count(*else_branch, s, v);
        },
        Term::Let { bindings, body } => {
            lemma_substituted_let_count_bindings(bindings, s, v);
            lemma_substituted_let_count(*body, s, v);
        },
        Term::Cons(h, tl) => {
            lemma_substituted_let_count(*h, s, v);
            lemma_substituted_let_count(*tl, s, v);
        },
        Term::Car(x) => lemma_substituted_let_count(*x, s, v),
        Term::Cdr(x) => lemma_substituted_let_count(*x, s, v),
        Term::Null(x) => lemma_substituted_let_count(*x, s, v),
        _ => {},
    }
}

proof fn lemma_substituted_let_count_all(a: Seq<Term>, s: Seq<char>, v: Term)
    requires
        let_count(v) == 0,
    ensures
        let_count_all(substituted_all(a, s, v)) == let_count_all(a),
    decreases a,
{
    if a.len() > 0 {
        lemma_substituted_let_count_all(a.drop_last(), s, v);
        lemma_substituted_let_count(a.last(), s, v);
        let w = substituted_all(a, s, v);
        assert(w.drop_last() =~= substituted_all(a.drop_last(), s, v));
    }
}

proof fn lemma_substituted_let_count_bindings(a: Seq<(Seq<char>, Term)>, s: Seq<char>, v: Term)
    requires
        let_count(v) == 0,
    ensures
        let_count_bindings(substituted_bindings(a, s, v)) == let_count_bindings(a),
    decreases a,
{
    if a.len() > 0 {
        lemma_substituted_let_count_bindings(a.drop_last(), s, v);
        lemma_substituted_let_count(a.last().1, s, v);
        let w = substituted_bindings(a, s, v);
        assert(w.drop_last() =~= substituted_bindings(a.drop_last(), s, v));
    }
}

/// Substituting `let`-free values back adds no `let` and removes none.
pub proof fn lemma_restored_let_count(t: Term, bs: Seq<(Seq<char>, Term)>)
    requires
        forall|i: int| #![trigger bs[i]] 0 <= i < bs.len() ==> let_count(bs[i].1) == 0,
    ensures
        let_count(restored(t, bs)) == let_count(t),
    decreases bs.len(),
{
    if bs.len() > 0 {
        assert(bs[bs.len() - 1] == bs.last());
        lemma_substituted_let_count(t, bs.last().0, bs.last().1);
        assert forall|i: int| #![trigger bs.drop_last()[i]] 0 <= i < bs.drop_last().len() implies let_count(
            bs.drop_last()[i].1,
        ) == 0 by {
            assert(bs.drop_last()[i] == bs[i]);
        }
        lemma_restored_let_count(substituted(t, bs.last().0, bs.last().1), bs.drop_last());
    }
}

proof fn lemma_total_let_free(t: Term)
    requires
        total_numeric(t),
    ensures
        let_count(t) == 0,
    decreases t,
{
    if let Term::Primitive { args, .. } = t {
        lemma_total_let_free_all(args);
    }
}

proof fn lemma_total_let_free_all(s: Seq<Term>)
    requires
        total_numeric_all(s),
    ensures
        let_count_all(s) == 0,
    decreases s,
{
    if s.len() > 0 {
        lemma_total_let_free_all(s.drop_last());
        lemma_total_let_free(s.last());
    }
}

/// `t` with every `let` that sharing introduced undone, outermost first: its
/// bindings substituted back into its body, the last binding first.
pub open spec fn unshared(t: Term, used: Set<Seq<char>>) -> Term
    decreases let_count(t), t,
{
    match t {
        Term::Let { bindings, body } => if introduced(bindings, used) {
            proof {
                lemma_restored_let_count(*body, bindings);
            }
            unshared(restored(*body, bindings), used)
        } else {
            Term::Let { bindings: unshared_bindings(bindings, used), body: Box::new(unshared(*body, used)) }
        },
        Term::Primitive { op, args } => Term::Primitive { op, args: unshared_all(args, used) },
        Term::Call { callee, args } => Term::Call { callee, args: unshared_all(args, used) },
        Term::If { condition, then_branch, else_branch } => Term::If {
            condition: Box::new(unshared(*condition, used)),
            then_branch: Box::new(unshared(*then_branch, used)),
            else_branch: Box::new(unshared(*else_branch, used)),
        },
        Term::Cons(h, tl) => Term::Cons(Box::new(unshared(*h, used)), Box::new(unshared(*tl, used))),
        Term::Car(v) => Term::Car(Box::new(unshared(*v, used))),
        Term::Cdr(v) => Term::Cdr(Box::new(unshared(*v, used))),
        Term::Null(v) => Term::Null(Box::new(unshared(*v, used))),
        _ => t,
    }
}

pub open spec fn unshared_all(s: Seq<Term>, used: Set<Seq<char>>) -> Seq<Term>
    decreases let_count_all(s), s,
{
    if s.len() == 0 {
        s
    } else {
        unshared_all(s.drop_last(), used).push(unshared(s.last(), used))
    }
}

pub open spec fn unshared_bindings(s: Seq<(Seq<char>, Term)>, used: Set<Seq<char>>) -> Seq<(Seq<char>, Term)>
    decreases let_count_bindings(s), s,
{
    if s.len() == 0 {
        s
    } else {
        unshared_bindings(s.drop_last(), used).push((s.last().0, unshared(s.last().1, used)))
    }
}

proof fn lemma_occurs_names(t: Term, x: Term)
    requires
        occurs(t, x),
    ensures
        forall|m: Seq<char>| #[trigger] names_in(x).contains(m) ==> names_in(t).contains(m),
    decreases t,
{
    broadcast use vstd::seq_lib::lemma_seq_concat_contains_all_elements;

    if t != x {
        match t {
            Term::Primitive { args, .. } => lemma_occurs_names_any(args, x),
            Term::Call { callee, args } => {
                lemma_occurs_names_any(args, x);
                assert(names_in(t) == seq![callee] + names_in_all(args));
            },
            Term::If { condition, then_branch, else_branch } => {
                if occurs(*condition, x) {
                    lemma_occurs_names(*condition, x);
                } else if occurs(*then_branch, x) {
                    lemma_occurs_names(*then_branch, x);
                } else {
                    lemma_occurs_names(*else_branch, x);
                }
            },
            Term::Let { bindings, body } => {
                if occurs_bindings(bindings, x) {
                    lemma_occurs_names_bindings(bindings, x);
                } else {
                    lemma_occurs_names(*body, x);
                }
            },
            Term::Cons(h, tl) => {
                if occurs(*h, x) {
                    lemma_occurs_names(*h, x);
                } else {
                    lemma_occurs_names(*tl, x);
                }
            },
            Term::Car(v) => lemma_occurs_names(*v, x),
            Term::Cdr(v) => lemma_occurs_names(*v, x),
            Term::Null(v) => lemma_occurs_names(*v, x),
            _ => {},
        }
    }
}

proof fn lemma_occurs_names_any(s: Seq<Term>, x: Term)
    requires
        occurs_any(s, x),
    ensures
        forall|m: Seq<char>| #[trigger] names_in(x).contains(m) ==> names_in_all(s).contains(m),
    decreases s,
{
    broadcast use vstd::seq_lib::lemma_seq_concat_contains_all_elements;

    if occurs_any(s.drop_last(), x) {
        lemma_occurs_names_any(s.drop_last(), x);
    } else {
        lemma_occurs_names(s.last(), x);
    }
}

proof fn lemma_occurs_names_bindings(s: Seq<(Seq<char>, Term)>, x: Term)
    requires
        occurs_bindings(s, x),
    ensures
        forall|m: Seq<char>| #[trigger] names_in(x).contains(m) ==> names_in_bindings(s).contains(m),
    decreases s,
{
    broadcast use vstd::seq_lib::lemma_seq_concat_contains_all_elements;

    if occurs_bindings(s.drop_last(), x) {
        lemma_occurs_names_bindings(s.drop_last(), x);
    } else {
        lemma_occurs_names(s.last().1, x);
    }
}

/// The rounds of hoisting take names only from the supply, which only grows.
proof fn lemma_hoisted_names(cur: Term, bs: Seq<(Seq<char>, Term)>, st: FreshState)
    requires
        st.used.finite(),
        all_used(names_in(cur), st.used),
        forall|i: int| #![trigger bs[i]] 0 <= i < bs.len() ==> st.used.contains(bs[i].0) && all_used(
            names_in(bs[i].1),
            st.used,
        ),
    ensures
        ({
            let (c2, b2, s2) = hoisted(cur, bs, st);
            &&& s2.used.finite()
            &&& st.used.subset_of(s2.used)
            &&& all_used(names_in(c2), s2.used)
            &&& forall|i: int| #![trigger b2[i]] 0 <= i < b2.len() ==> s2.used.contains(b2[i].0) && all_used(
                names_in(b2[i].1),
                s2.used,
            )
        }),
    decreases prim_count(cur),
{
    lemma_best_candidate(cur);
    if let Some(c) = best_of(numeric_trees(cur)) {
        let (local, s1) = take_local(st);
        let next = swapped(cur, c, Term::Var(local));
        if prim_count(next) < prim_count(cur) {
            lemma_take_local_fresh(st);
            assert(!names_in(cur).contains(local));
            lemma_swapped_back(cur, c, local);
            lemma_occurs_names(cur, c);
            let nb = bs.push((local, c));
            assert forall|i: int| #![trigger nb[i]] 0 <= i < nb.len() implies s1.used.contains(nb[i].0) && all_used(
                names_in(nb[i].1),
                s1.used,
            ) by {
                if i < bs.len() {
                    assert(nb[i] == bs[i]);
                }
            }
            lemma_hoisted_names(next, nb, s1);
            assert(hoisted(cur, bs, st) == hoisted(next, nb, s1));
        } else {
            assert(hoisted(cur, bs, st) == (cur, bs, st));
        }
    } else {
        assert(hoisted(cur, bs, st) == (cur, bs, st));
    }
}

proof fn lemma_bindings_all_used(bs: Seq<(Seq<char>, Term)>, used: Set<Seq<char>>)
    requires
        forall|i: int| #![trigger bs[i]] 0 <= i < bs.len() ==> used.contains(bs[i].0) && all_used(
            names_in(bs[i].1),
            used,
        ),
    ensures
        all_used(names_in_bindings(bs), used),
    decreases bs.len(),
{
    broadcast use vstd::seq_lib::lemma_seq_concat_contains_all_elements;

    if bs.len() > 0 {
        assert forall|i: int| #![trigger bs.drop_last()[i]] 0 <= i < bs.drop_last().len() implies used.contains(
            bs.drop_last()[i].0,
        ) && all_used(names_in(bs.drop_last()[i].1), used) by {
            assert(bs.drop_last()[i] == bs[i]);
        }
        lemma_bindings_all_used(bs.drop_last(), used);
        assert(bs[bs.len() - 1] == bs.last());
        assert forall|m: Seq<char>| #[trigger] seq![bs.last().0].contains(m) implies used.contains(m) by {
            let i = choose|i: int| 0 <= i < 1 && seq![bs.last().0][i] == m;
            assert(seq![bs.last().0][i] == bs.last().0);
        }
    }
}

/// One node's sharing, undone, gives the node undone.
proof fn lemma_hoist_unshared(cur: Term, st: FreshState, used: Set<Seq<char>>)
    requires
        st.used.finite(),
        all_used(names_in(cur), st.used),
        used.subset_of(st.used),
    ensures
        unshared(hoist_all(cur, st).0, used) == unshared(cur, used),
        hoist_all(cur, st).1.used.finite(),
        st.used.subset_of(hoist_all(cur, st).1.used),
        all_used(names_in(hoist_all(cur, st).0), hoist_all(cur, st).1.used),
{
    broadcast use vstd::seq_lib::lemma_seq_concat_contains_all_elements;

    lemma_hoisting_substitutes_back(cur, st);
    lemma_hoisted_names(cur, Seq::empty(), st);
    let (body, bs, s2) = hoisted(cur, Seq::empty(), st);
    if bs.len() > 0 {
        assert forall|i: int| #![trigger bs[i]] 0 <= i < bs.len() implies !used.contains(bs[i].0) && let_count(
            bs[i].1,
        ) == 0 && total_numeric(bs[i].1) by {
            assert(!st.used.contains(bs[i].0) && total_numeric(bs[i].1));
            lemma_total_let_free(bs[i].1);
        }
        assert(introduced(bs, used));
        lemma_bindings_all_used(bs, s2.used);
    }
}

proof fn lemma_within_split(a: Seq<Seq<char>>, b: Seq<Seq<char>>, used: Set<Seq<char>>)
    requires
        all_used(a + b, used),
    ensures
        all_used(a, used),
        all_used(b, used),
{
    broadcast use vstd::seq_lib::lemma_seq_concat_contains_all_elements;

    assert forall|m: Seq<char>| #[trigger] a.contains(m) implies used.contains(m) by {
        assert((a + b).contains(m));
    }
    assert forall|m: Seq<char>| #[trigger] b.contains(m) implies used.contains(m) by {
        assert((a + b).contains(m));
    }
}

/// Sharing, undone, gives back exactly the term it was given; it takes its
/// names from the supply, which only grows.
proof fn lemma_unshared_shared(t: Term, st: FreshState, used: Set<Seq<char>>)
    requires
        st.used.finite(),
        all_used(names_in(t), used),
        used.subset_of(st.used),
    ensures
        unshared(shared(t, st).0, used) == t,
        shared(t, st).1.used.finite(),
        st.used.subset_of(shared(t, st).1.used),
        all_used(names_in(shared(t, st).0), shared(t, st).1.used),
    decreases t,
{
    broadcast use vstd::seq_lib::lemma_seq_concat_contains_all_elements;

    match t {
        Term::Primitive { op, args } => {
            lemma_unshared_shared_all(args, st, used);
            let (a, s1) = shared_all(args, st);
            lemma_hoist_unshared(Term::Primitive { op, args: a }, s1, used);
        },
        Term::Call { callee, args } => {
            assert(names_in(t) == seq![callee] + names_in_all(args));
            lemma_within_split(seq![callee], names_in_all(args), used);
            lemma_unshared_shared_all(args, st, used);
            let (a, s1) = shared_all(args, st);
            let cur = Term::Call { callee, args: a };
            assert(names_in(cur) == seq![callee] + names_in_all(a));
            assert(seq![callee][0] == callee);
            assert(names_in(t).contains(callee));
            lemma_hoist_unshared(cur, s1, used);
        },
        Term::If { condition, then_branch, else_branch } => {
            lemma_within_split(names_in(*condition) + names_in(*then_branch), names_in(*else_branch), used);
            lemma_within_split(names_in(*condition), names_in(*then_branch), used);
            lemma_unshared_shared(*condition, st, used);
            let (c, s1) = shared(*condition, st);
            lemma_unshared_shared(*then_branch, s1, used);
            let (a, s2) = shared(*then_branch, s1);
            lemma_unshared_shared(*else_branch, s2, used);
            let (b, s3) = shared(*else_branch, s2);
            let cur = Term::If { condition: Box::new(c), then_branch: Box::new(a), else_branch: Box::new(b) };
            lemma_hoist_unshared(cur, s3, used);
        },
        Term::Let { bindings, body } => {
            lemma_within_split(names_in_bindings(bindings), names_in(*body), used);
            lemma_unshared_shared_bindings(bindings, st, used);
            let (bs, s1) = shared_bindings(bindings, st);
            lemma_unshared_shared(*body, s1, used);
            let (b, s2) = shared(*body, s1);
            let cur = Term::Let { bindings: bs, body: Box::new(b) };
            if bs.len() > 0 {
                let last = bs.len() - 1;
                assert(bs[last].0 == bindings[last].0);
                assert(bindings[last] == bindings.last());
                assert(names_in_bindings(bindings) == names_in_bindings(bindings.drop_last()) + seq![
                    bindings.last().0,
                ] + names_in(bindings.last().1));
                assert(seq![bindings.last().0][0] == bindings.last().0);
                assert(names_in(t).contains(bindings.last().0));
                assert(!introduced(bs, used));
            }
            lemma_hoist_unshared(cur, s2, used);
        },
        Term::Cons(h, tl) => {
            lemma_within_split(names_in(*h), names_in(*tl), used);
            lemma_unshared_shared(*h, st, used);
            let (x, s1) = shared(*h, st);
            lemma_unshared_shared(*tl, s1, used);
            let (y, s2) = shared(*tl, s1);
            lemma_hoist_unshared(Term::Cons(Box::new(x), Box::new(y)), s2, used);
        },
        Term::Car(v) => {
            lemma_unshared_shared(*v, st, used);
            let (x, s1) = shared(*v, st);
            lemma_hoist_unshared(Term::Car(Box::new(x)), s1, used);
        },
        Term::Cdr(v) => {
            lemma_unshared_shared(*v, st, used);
            let (x, s1) = shared(*v, st);
            lemma_hoist_unshared(Term::Cdr(Box::new(x)), s1, used);
        },
        Term::Null(v) => {
            lemma_unshared_shared(*v, st, used);
            let (x, s1) = shared(*v, st);
            lemma_hoist_unshared(Term::Null(Box::new(x)), s1, used);
        },
        _ => {
            lemma_hoist_unshared(t, st, used);
        },
    }
}

proof fn lemma_unshared_shared_all(s: Seq<Term>, st: FreshState, used: Set<Seq<char>>)
    requires
        st.used.finite(),
        all_used(names_in_all(s), used),
        used.subset_of(st.used),
    ensures
        unshared_all(shared_all(s, st).0, used) == s,
        shared_all(s, st).1.used.finite(),
        st.used.subset_of(shared_all(s, st).1.used),
        all_used(names_in_all(shared_all(s, st).0), shared_all(s, st).1.used),
    decreases s,
{
    broadcast use vstd::seq_lib::lemma_seq_concat_contains_all_elements;

    if s.len() > 0 {
        assert(names_in_all(s) == names_in_all(s.drop_last()) + names_in(s.last()));
        lemma_within_split(names_in_all(s.drop_last()), names_in(s.last()), used);
        lemma_unshared_shared_all(s.drop_last(), st, used);
        let (front, s1) = shared_all(s.drop_last(), st);
        lemma_unshared_shared(s.last(), s1, used);
        let (x, s2) = shared(s.last(), s1);
        let r = front.push(x);
        assert(r.drop_last() =~= front);
        assert(r.last() == x);
        assert(unshared_all(r, used) =~= s);
        assert(names_in_all(r) == names_in_all(front) + names_in(x));
    }
}

proof fn lemma_unshared_shared_bindings(s: Seq<(Seq<char>, Term)>, st: FreshState, used: Set<Seq<char>>)
    requires
        st.used.finite(),
        all_used(names_in_bindings(s), used),
        used.subset_of(st.used),
    ensures
        unshared_bindings(shared_bindings(s, st).0, used) == s,
        shared_bindings(s, st).0.len() == s.len(),
        forall|i: int| 0 <= i < s.len() ==> (#[trigger] shared_bindings(s, st).0[i]).0 == s[i].0,
        shared_bindings(s, st).1.used.finite(),
        st.used.subset_of(shared_bindings(s, st).1.used),
        all_used(names_in_bindings(shared_bindings(s, st).0), shared_bindings(s, st).1.used),
    decreases s,
{
    broadcast use vstd::seq_lib::lemma_seq_concat_contains_all_elements;

    if s.len() > 0 {
        assert(names_in_bindings(s) == names_in_bindings(s.drop_last()) + seq![s.last().0] + names_in(s.last().1));
        lemma_within_split(names_in_bindings(s.drop_last()) + seq![s.last().0], names_in(s.last().1), used);
        lemma_within_split(names_in_bindings(s.drop_last()), seq![s.last().0], used);
        lemma_unshared_shared_bindings(s.drop_last(), st, used);
        let (front, s1) = shared_bindings(s.drop_last(), st);
        lemma_unshared_shared(s.last().1, s1, used);
        let (x, s2) = shared(s.last().1, s1);
        let r = front.push((s.last().0, x));
        assert(r.drop_last() =~= front);
        assert(r.last() == (s.last().0, x));
        assert(unshared_bindings(r, used) =~= s);
        assert forall|i: int| 0 <= i < s.len() implies (#[trigger] r[i]).0 == s[i].0 by {
            if i < s.len() - 1 {
                assert(r[i] == front[i]);
                assert(s.drop_last()[i] == s[i]);
            }
        }
        assert(names_in_bindings(r) == names_in_bindings(front) + seq![s.last().0] + names_in(x));
        assert(names_in_bindings(s) == names_in_bindings(s.drop_last()) + seq![s.last().0] + names_in(s.last().1));
        assert forall|m: Seq<char>| #[trigger] seq![s.last().0].contains(m) implies s2.used.contains(m) by {
            let i = choose|i: int| 0 <= i < 1 && seq![s.last().0][i] == m;
            assert(seq![s.last().0][i] == s.last().0);
            assert(names_in_bindings(s).contains(s.last().0));
        }
    }
}

/// Sharing a whole expression can be undone: taking every `let` of the
/// result that binds only names outside the supply it started from, each to
/// a value with no `let` in it, outermost first, and substituting its values
/// back for its names, the last binding first, gives exactly the expression
/// that was shared. (Each round of sharing binds such names to total numeric
/// trees holding a primitive; see `lemma_hoisting_substitutes_back`.)
pub proof fn lemma_sharing_undone(t: Term, st: FreshState)
    requires
        st.used.finite(),
        all_used(names_in(t), st.used),
    ensures
        unshared(shared(t, st).0, st.used) == t,
{
    lemma_unshared_shared(t, st, st.used);
}

// ---------------------------------------------------------------------------
// What the introduced bindings hold
// ---------------------------------------------------------------------------

/// Every `let` in `t`, at any depth, binds each name outside `used` to a
/// total numeric tree: numbers and names joined by primitives other than
/// division, with no call.
pub open spec fn fresh_lets_numeric(t: Term, used: Set<Seq<char>>) -> bool
    decreases t,
{
    match t {
        Term::Let { bindings, body } => fresh_bindings_numeric(bindings, used) && fresh_lets_numeric(*body, used),
        Term::Primitive { args, .. } => fresh_lets_numeric_all(args, used),
        Term::Call { args, .. } => fresh_lets_numeric_all(args, used),
        Term::If { condition, then_branch, else_branch } => fresh_lets_numeric(*condition, used)
            && fresh_lets_numeric(*then_branch, used) && fresh_lets_numeric(*else_branch, used),
        Term::Cons(h, tl) => fresh_lets_numeric(*h, used) && fresh_lets_numeric(*tl, used),
        Term::Car(v) => fresh_lets_numeric(*v, used),
        Term::Cdr(v) => fresh_lets_numeric(*v, used),
        Term::Null(v) => fresh_lets_numeric(*v, used),
        _ => true,
    }
}

pub open spec fn fresh_lets_numeric_all(s: Seq<Term>, used: Set<Seq<char>>) -> bool
    decreases s,
{
    s.len() == 0 || (fresh_lets_numeric_all(s.drop_last(), used) && fresh_lets_numeric(s.last(), used))
}

pub open spec fn fresh_bindings_numeric(s: Seq<(Seq<char>, Term)>, used: Set<Seq<char>>) -> bool
    decreases s,
{
    s.len() == 0 || {
        &&& fresh_bindings_numeric(s.drop_last(), used)
        &&& !used.contains(s.last().0) ==> total_numeric(s.last().1)
        &&& fresh_lets_numeric(s.last().1, used)
    }
}

proof fn lemma_total_fresh(t: Term, used: Set<Seq<char>>)
    requires
        total_numeric(t),
    ensures
        fresh_lets_numeric(t, used),
    decreases t,
{
    if let Term::Primitive { args, .. } = t {
        lemma_total_fresh_all(args, used);
    }
}

proof fn lemma_total_fresh_all(s: Seq<Term>, used: Set<Seq<char>>)
    requires
        total_numeric_all(s),
    ensures
        fresh_lets_numeric_all(s, used),
    decreases s,
{
    if s.len() > 0 {
        lemma_total_fresh_all(s.drop_last(), used);
        lemma_total_fresh(s.last(), used);
    }
}

proof fn lemma_swapped_total(t: Term, c: Term, l: Seq<char>)
    requires
        total_numeric(t),
    ensures
        total_numeric(swapped(t, c, Term::Var(l))),
    decreases t,
{
    if t != c {
        if let Term::Primitive { args, .. } = t {
            lemma_swapped_total_all(args, c, l);
        }
    }
}

proof fn lemma_swapped_total_all(s: Seq<Term>, c: Term, l: Seq<char>)
    requires
        total_numeric_all(s),
    ensures
        total_numeric_all(swapped_all(s, c, Term::Var(l))),
    decreases s,
{
    if s.len() > 0 {
        lemma_swapped_total_all(s.drop_last(), c, l);
        lemma_swapped_total(s.last(), c, l);
        let r = swapped_all(s, c, Term::Var(l));
        assert(r.drop_last() =~= swapped_all(s.drop_last(), c, Term::Var(l)));
    }
}

proof fn lemma_swapped_fresh(t: Term, c: Term, l: Seq<char>, used: Set<Seq<char>>)
    requires
        fresh_lets_numeric(t, used),
    ensures
        fresh_lets_numeric(swapped(t, c, Term::Var(l)), used),
    decreases t,
{
    if t != c {
        match t {
            Term::Let { bindings, body } => {
                lemma_swapped_fresh_bindings(bindings, c, l, used);
                lemma_swapped_fresh(*body, c, l, used);
            },
            Term::Primitive { args, .. } => lemma_swapped_fresh_all(args, c, l, used),
            Term::Call { args, .. } => lemma_swapped_fresh_all(args, c, l, used),
            Term::If { condition, then_branch, else_branch } => {
                lemma_swapped_fresh(*condition, c, l, used);
                lemma_swapped_fresh(*then_branch, c, l, used);
                lemma_swapped_fresh(*else_branch, c, l, used);
            },
            Term::Cons(h, tl) => {
                lemma_swapped_fresh(*h, c, l, used);
                lemma_swapped_fresh(*tl, c, l, used);
            },
            Term::Car(v) => lemma_swapped_fresh(*v, c, l, used),
            Term::Cdr(v) => lemma_swapped_fresh(*v, c, l, used),
            Term::Null(v) => lemma_swapped_fresh(*v, c, l, used),
            _ => {},
        }
    }
}

proof fn lemma_swapped_fresh_all(s: Seq<Term>, c: Term, l: Seq<char>, used: Set<Seq<char>>)
    requires
        fresh_lets_numeric_all(s, used),
    ensures
        fresh_lets_numeric_all(swapped_all(s, c, Term::Var(l)), used),
    decreases s,
{
    if s.len() > 0 {
        lemma_swapped_fresh_all(s.drop_last(), c, l, used);
        lemma_swapped_fresh(s.last(), c, l, used);
        let r = swapped_all(s, c, Term::Var(l));
        assert(r.drop_last() =~= swapped_all(s.drop_last(), c, Term::Var(l)));
    }
}

proof fn lemma_swapped_fresh_bindings(s: Seq<(Seq<char>, Term)>, c: Term, l: Seq<char>, used: Set<Seq<char>>)
    requires
        fresh_bindings_numeric(s, used),
    ensures
        fresh_bindings_numeric(swapped_bindings(s, c, Term::Var(l)), used),
    decreases s,
{
    if s.len() > 0 {
        lemma_swapped_fresh_bindings(s.drop_last(), c, l, used);
        lemma_swapped_fresh(s.last().1, c, l, used);
        if !used.contains(s.last().0) {
            lemma_swapped_total(s.last().1, c, l);
        }
        let r = swapped_bindings(s, c, Term::Var(l));
        assert(r.drop_last() =~= swapped_bindings(s.drop_last(), c, Term::Var(l)));
    }
}

proof fn lemma_hoisted_fresh(cur: Term, bs: Seq<(Seq<char>, Term)>, st: FreshState, used: Set<Seq<char>>)
    requires
        fresh_lets_numeric(cur, used),
    ensures
        fresh_lets_numeric(hoisted(cur, bs, st).0, used),
    decreases prim_count(cur),
{
    if let Some(c) = best_of(numeric_trees(cur)) {
        let (local, s1) = take_local(st);
        let next = swapped(cur, c, Term::Var(local));
        if prim_count(next) < prim_count(cur) {
            lemma_swapped_fresh(cur, c, local, used);
            lemma_hoisted_fresh(next, bs.push((local, c)), s1, used);
        }
    }
}

proof fn lemma_fresh_bindings_each(bs: Seq<(Seq<char>, Term)>, used: Set<Seq<char>>)
    requires
        forall|i: int| 0 <= i < bs.len() ==> total_numeric(#[trigger] bs[i].1),
    ensures
        fresh_bindings_numeric(bs, used),
    decreases bs.len(),
{
    if bs.len() > 0 {
        let b0 = bs.drop_last();
        assert forall|i: int| 0 <= i < b0.len() implies total_numeric(#[trigger] b0[i].1) by {
            assert(b0[i] == bs[i]);
        }
        lemma_fresh_bindings_each(b0, used);
        assert(total_numeric(bs[bs.len() - 1].1));
        lemma_total_fresh(bs.last().1, used);
    }
}

/// One node's sharing binds its fresh names to total numeric trees.
proof fn lemma_hoist_fresh(cur: Term, st: FreshState, used: Set<Seq<char>>)
    requires
        st.used.finite(),
        all_used(names_in(cur), st.used),
        used.subset_of(st.used),
        fresh_lets_numeric(cur, used),
    ensures
        fresh_lets_numeric(hoist_all(cur, st).0, used),
{
    lemma_hoisting_substitutes_back(cur, st);
    lemma_hoisted_fresh(cur, Seq::empty(), st, used);
    let (body, bs, s2) = hoisted(cur, Seq::empty(), st);
    if bs.len() > 0 {
        assert forall|i: int| 0 <= i < bs.len() implies total_numeric(#[trigger] bs[i].1) by {
            assert(!st.used.contains(bs[i].0));
        }
        lemma_fresh_bindings_each(bs, used);
    }
}

proof fn lemma_shared_fresh(t: Term, st: FreshState, used: Set<Seq<char>>)
    requires
        st.used.finite(),
        all_used(names_in(t), used),
        used.subset_of(st.used),
    ensures
        fresh_lets_numeric(shared(t, st).0, used),
    decreases t,
{
    broadcast use vstd::seq_lib::lemma_seq_concat_contains_all_elements;

    lemma_unshared_shared(t, st, used);
    match t {
        Term::Primitive { op, args } => {
            lemma_unshared_shared_all(args, st, used);
            lemma_shared_fresh_all(args, st, used);
            let (a, s1) = shared_all(args, st);
            lemma_hoist_fresh(Term::Primitive { op, args: a }, s1, used);
        },
        Term::Call { callee, args } => {
            assert(names_in(t) == seq![callee] + names_in_all(args));
            lemma_within_split(seq![callee], names_in_all(args), used);
            lemma_unshared_shared_all(args, st, used);
            lemma_shared_fresh_all(args, st, used);
            let (a, s1) = shared_all(args, st);
            let cur = Term::Call { callee, args: a };
            assert(names_in(cur) == seq![callee] + names_in_all(a));
            assert(seq![callee][0] == callee);
            assert(names_in(t).contains(callee));
            lemma_hoist_fresh(cur, s1, used);
        },
        Term::If { condition, then_branch, else_branch } => {
            lemma_within_split(names_in(*condition) + names_in(*then_branch), names_in(*else_branch), used);
            lemma_within_split(names_in(*condition), names_in(*then_branch), used);
            lemma_unshared_shared(*condition, st, used);
            lemma_shared_fresh(*condition, st, used);
            let (c, s1) = shared(*condition, st);
            lemma_unshared_shared(*then_branch, s1, used);
            lemma_shared_fresh(*then_branch, s1, used);
            let (a, s2) = shared(*then_branch, s1);
            lemma_unshared_shared(*else_branch, s2, used);
            lemma_shared_fresh(*else_branch, s2, used);
            let (b, s3) = shared(*else_branch, s2);
            let cur = Term::If { condition: Box::new(c), then_branch: Box::new(a), else_branch: Box::new(b) };
            lemma_hoist_fresh(cur, s3, used);
        },
        Term::Let { bindings, body } => {
            lemma_within_split(names_in_bindings(bindings), names_in(*body), used);
            lemma_unshared_shared_bindings(bindings, st, used);
            lemma_shared_fresh_bindings(bindings, st, used);
            let (bs, s1) = shared_bindings(bindings, st);
            lemma_unshared_shared(*body, s1, used);
            lemma_shared_fresh(*body, s1, used);
            let (b, s2) = shared(*body, s1);
            let cur = Term::Let { bindings: bs, body: Box::new(b) };
            lemma_hoist_fresh(cur, s2, used);
        },
        Term::Cons(h, tl) => {
            lemma_within_split(names_in(*h), names_in(*tl), used);
            lemma_unshared_shared(*h, st, used);
            lemma_shared_fresh(*h, st, used);
            let (x, s1) = shared(*h, st);
            lemma_unshared_shared(*tl, s1, used);
            lemma_shared_fresh(*tl, s1, used);
            let (y, s2) = shared(*tl, s1);
            lemma_hoist_fresh(Term::Cons(Box::new(x), Box::new(y)), s2, used);
        },
        Term::Car(v) => {
            lemma_unshared_shared(*v, st, used);
            lemma_shared_fresh(*v, st, used);
            let (x, s1) = shared(*v, st);
            lemma_hoist_fresh(Term::Car(Box::new(x)), s1, used);
        },
        Term::Cdr(v) => {
            lemma_unshared_shared(*v, st, used);
            lemma_shared_fresh(*v, st, used);
            let (x, s1) = shared(*v, st);
            lemma_hoist_fresh(Term::Cdr(Box::new(x)), s1, used);
        },
        Term::Null(v) => {
            lemma_unshared_shared(*v, st, used);
            lemma_shared_fresh(*v, st, used);
            let (x, s1) = shared(*v, st);
            lemma_hoist_fresh(Term::Null(Box::new(x)), s1, used);
        },
        _ => {
            lemma_hoist_fresh(t, st, used);
        },
    }
}

proof fn lemma_shared_fresh_all(s: Seq<Term>, st: FreshState, used: Set<Seq<char>>)
    requires
        st.used.finite(),
        all_used(names_in_all(s), used),
        used.subset_of(st.used),
    ensures
        fresh_lets_numeric_all(shared_all(s, st).0, used),
    decreases s,
{
    if s.len() > 0 {
        assert(names_in_all(s) == names_in_all(s.drop_last()) + names_in(s.last()));
        lemma_within_split(names_in_all(s.drop_last()), names_in(s.last()), used);
        lemma_unshared_shared_all(s.drop_last(), st, used);
        lemma_shared_fresh_all(s.drop_last(), st, used);
        let (front, s1) = shared_all(s.drop_last(), st);
        lemma_shared_fresh(s.last(), s1, used);
        let (x, s2) = shared(s.last(), s1);
        let r = front.push(x);
        assert(r.drop_last() =~= front);
    }
}

proof fn lemma_shared_fresh_bindings(s: Seq<(Seq<char>, Term)>, st: FreshState, used: Set<Seq<char>>)
    requires
        st.used.finite(),
        all_used(names_in_bindings(s), used),
        used.subset_of(st.used),
    ensures
        fresh_bindings_numeric(shared_bindings(s, st).0, used),
    decreases s,
{
    broadcast use vstd::seq_lib::lemma_seq_concat_contains_all_elements;

    if s.len() > 0 {
        assert(names_in_bindings(s) == names_in_bindings(s.drop_last()) + seq![s.last().0] + names_in(s.last().1));
        lemma_within_split(names_in_bindings(s.drop_last()) + seq![s.last().0], names_in(s.last().1), used);
        lemma_within_split(names_in_bindings(s.drop_last()), seq![s.last().0], used);
        lemma_unshared_shared_bindings(s.drop_last(), st, used);
        lemma_shared_fresh_bindings(s.drop_last(), st, used);
        let (front, s1) = shared_bindings(s.drop_last(), st);
        lemma_shared_fresh(s.last().1, s1, used);
        let (x, s2) = shared(s.last().1, s1);
        let r = front.push((s.last().0, x));
        assert(r.drop_last() =~= front);
        assert(seq![s.last().0][0] == s.last().0);
        assert(seq![s.last().0].contains(s.last().0));
        assert(used.contains(s.last().0));
    }
}

/// Every `let` that sharing adds binds only names the supply had not
/// handed out, each to a total numeric tree: numbers and names joined by
/// primitives other than division, with no call. Stated of the whole
/// result: every `let` in it that binds a name outside the supply it
/// started from binds that name to such a tree. (A tree hoisted at one node
/// may be a whole value bound at a node below it, which is then left bound
/// to the new local alone, so a value need not hold a primitive of its own.)
pub proof fn lemma_sharing_binds_numeric_trees(t: Term, st: FreshState)
    requires
        st.used.finite(),
        all_used(names_in(t), st.used),
    ensures
        fresh_lets_numeric(shared(t, st).0, st.used),
{
    lemma_shared_fresh(t, st, st.used);
}

// ---------------------------------------------------------------------------
// Sharing on top of settling
// ---------------------------------------------------------------------------

proof fn lemma_within_join(x1: Seq<Seq<char>>, x2: Seq<Seq<char>>, y1: Seq<Seq<char>>, y2: Seq<Seq<char>>)
    requires
        within(x1, y1),
        within(x2, y2),
    ensures
        within(x1 + x2, y1 + y2),
{
    broadcast use vstd::seq_lib::lemma_seq_concat_contains_all_elements;

    assert forall|n: Seq<char>| #[trigger] (x1 + x2).contains(n) implies (y1 + y2).contains(n) by {
        if x1.contains(n) {
            assert(y1.contains(n));
        } else {
            assert(y2.contains(n));
        }
    }
}

proof fn lemma_within_parts(x: Seq<Seq<char>>, y: Seq<Seq<char>>)
    ensures
        within(x, x + y),
        within(y, x + y),
{
    broadcast use vstd::seq_lib::lemma_seq_concat_contains_all_elements;

}

proof fn lemma_within_trans(a: Seq<Seq<char>>, b: Seq<Seq<char>>, c: Seq<Seq<char>>)
    requires
        within(a, b),
        within(b, c),
    ensures
        within(a, c),
{
}

/// Every value `env` binds is a number or boolean literal.
pub open spec fn literal_values(env: Env) -> bool {
    forall|i: int| #![trigger env[i]] 0 <= i < env.len() ==> is_scalar_literal(env[i].1)
}

proof fn lemma_lookup_literal(env: Env, n: Seq<char>)
    requires
        literal_values(env),
    ensures
        lookup(env, n) matches Some(v) ==> is_scalar_literal(v),
    decreases env.len(),
{
    if env.len() > 0 {
        assert(env[env.len() - 1] == env.last());
        if env.last().0 != n {
            assert forall|i: int| #![trigger env.drop_last()[i]] 0 <= i < env.drop_last().len() implies is_scalar_literal(
                env.drop_last()[i].1,
            ) by {
                assert(env.drop_last()[i] == env[i]);
            }
            lemma_lookup_literal(env.drop_last(), n);
        }
    }
}

proof fn lemma_literal_values_concat(a: Env, b: Env)
    requires
        literal_values(a),
        literal_values(b),
    ensures
        literal_values(a + b),
{
    assert forall|i: int| #![trigger (a + b)[i]] 0 <= i < (a + b).len() implies is_scalar_literal((a + b)[i].1) by {
        if i < a.len() {
            assert((a + b)[i] == a[i]);
        } else {
            assert((a + b)[i] == b[i - a.len()]);
        }
    }
}

proof fn lemma_propagated_bindings_names(s: Seq<(Seq<char>, Term)>, env: Env)
    requires
        literal_values(env),
    ensures
        literal_values(propagated_bindings(s, env).0),
        within(names_in_bindings(propagated_bindings(s, env).1), names_in_bindings(s)),
    decreases s,
{
    broadcast use vstd::seq_lib::lemma_seq_concat_contains_all_elements;

    if s.len() == 0 {
        assert(names_in_bindings(propagated_bindings(s, env).1) =~= Seq::<Seq<char>>::empty());
    } else {
        lemma_propagated_bindings_names(s.drop_last(), env);
        let (lits0, kept0) = propagated_bindings(s.drop_last(), env);
        lemma_propagated_names(s.last().1, env);
        let p = propagated(s.last().1, env);
        lemma_replaced_names(p, lits0);
        let v = replaced(p, lits0);
        lemma_within_trans(names_in(v), names_in(p), names_in(s.last().1));
        assert(names_in_bindings(s) == names_in_bindings(s.drop_last()) + seq![s.last().0] + names_in(s.last().1));
        lemma_within_parts(names_in_bindings(s.drop_last()) + seq![s.last().0], names_in(s.last().1));
        lemma_within_parts(names_in_bindings(s.drop_last()), seq![s.last().0]);
        if is_scalar_literal(v) {
            let lits = lits0.push((s.last().0, v));
            assert forall|i: int| #![trigger lits[i]] 0 <= i < lits.len() implies is_scalar_literal(lits[i].1) by {
                if i < lits0.len() {
                    assert(lits[i] == lits0[i]);
                }
            }
        } else {
            let kept = kept0.push((s.last().0, v));
            assert(kept.drop_last() =~= kept0);
            assert(names_in_bindings(kept) == names_in_bindings(kept0) + seq![s.last().0] + names_in(v));
            lemma_within_join(names_in_bindings(kept0), seq![s.last().0], names_in_bindings(s.drop_last()), seq![s.last().0]);
            lemma_within_join(
                names_in_bindings(kept0) + seq![s.last().0],
                names_in(v),
                names_in_bindings(s.drop_last()) + seq![s.last().0],
                names_in(s.last().1),
            );
        }
    }
}

proof fn lemma_keep_needed_names(s: Seq<(Seq<char>, Term)>, used: Seq<Seq<char>>)
    ensures
        within(names_in_bindings(keep_needed(s, used)), names_in_bindings(s)),
    decreases s.len(),
{
    broadcast use vstd::seq_lib::lemma_seq_concat_contains_all_elements;

    if s.len() == 0 {
        assert(names_in_bindings(keep_needed(s, used)) =~= Seq::<Seq<char>>::empty());
    } else {
        lemma_keep_needed_names(s.drop_last(), used);
        let k0 = keep_needed(s.drop_last(), used);
        assert(names_in_bindings(s) == names_in_bindings(s.drop_last()) + seq![s.last().0] + names_in(s.last().1));
        lemma_within_parts(names_in_bindings(s.drop_last()) + seq![s.last().0], names_in(s.last().1));
        lemma_within_parts(names_in_bindings(s.drop_last()), seq![s.last().0]);
        if used.contains(s.last().0) || !droppable_term(s.last().1) {
            let k = k0.push(s.last());
            assert(k.drop_last() =~= k0);
            assert(names_in_bindings(k) == names_in_bindings(k0) + seq![s.last().0] + names_in(s.last().1));
            lemma_within_join(names_in_bindings(k0), seq![s.last().0], names_in_bindings(s.drop_last()), seq![s.last().0]);
            lemma_within_join(
                names_in_bindings(k0) + seq![s.last().0],
                names_in(s.last().1),
                names_in_bindings(s.drop_last()) + seq![s.last().0],
                names_in(s.last().1),
            );
        }
    }
}

proof fn lemma_prune_names(kept: Seq<(Seq<char>, Term)>, body: Term)
    ensures
        within(names_in_bindings(prune(kept, body)), names_in_bindings(kept)),
    decreases kept.len(),
{
    let next = keep_needed(kept, used_by(kept, body));
    if next.len() < kept.len() {
        lemma_keep_needed_names(kept, used_by(kept, body));
        lemma_prune_names(next, body);
    }
}

proof fn lemma_simplified_names(t: Term)
    ensures
        within(names_in(simplified(t)), names_in(t)),
    decreases t,
{
    broadcast use vstd::seq_lib::lemma_seq_concat_contains_all_elements;

    match t {
        Term::Primitive { op, args } => {
            lemma_simplified_all_names(args);
            if let Some(v) = fold_spec(op, simplified_all(args)) {
                assert(names_in(v) =~= Seq::<Seq<char>>::empty());
            }
        },
        Term::If { condition, then_branch, else_branch } => {
            lemma_simplified_names(*condition);
            lemma_simplified_names(*then_branch);
            lemma_simplified_names(*else_branch);
            let (c, a, b) = (simplified(*condition), simplified(*then_branch), simplified(*else_branch));
            lemma_within_join(names_in(c), names_in(a), names_in(*condition), names_in(*then_branch));
            lemma_within_join(names_in(c) + names_in(a), names_in(b), names_in(*condition) + names_in(*then_branch), names_in(*else_branch));
            lemma_within_parts(names_in(*condition), names_in(*then_branch));
            lemma_within_parts(names_in(*condition) + names_in(*then_branch), names_in(*else_branch));
        },
        Term::Let { bindings, body } => {
            lemma_simplified_bindings_names(bindings);
            lemma_simplified_names(*body);
            lemma_within_join(names_in_bindings(simplified_bindings(bindings)), names_in(simplified(*body)), names_in_bindings(bindings), names_in(*body));
        },

        Term::Call { callee, args } => {
            lemma_simplified_all_names(args);
            assert(names_in(t) == seq![callee] + names_in_all(args));
            assert(names_in(simplified(t)) == seq![callee] + names_in_all(simplified_all(args)));
            lemma_within_join(seq![callee], names_in_all(simplified_all(args)), seq![callee], names_in_all(args));
        },
        Term::Cons(h, tl) => {
            lemma_simplified_names(*h);
            lemma_simplified_names(*tl);
            lemma_within_join(names_in(simplified(*h)), names_in(simplified(*tl)), names_in(*h), names_in(*tl));
        },
        Term::Car(v) => lemma_simplified_names(*v),
        Term::Cdr(v) => lemma_simplified_names(*v),
        Term::Null(v) => lemma_simplified_names(*v),
        _ => {},
    }
}

proof fn lemma_simplified_all_names(s: Seq<Term>)
    ensures
        within(names_in_all(simplified_all(s)), names_in_all(s)),
    decreases s,
{
    if s.len() > 0 {
        lemma_simplified_all_names(s.drop_last());
        lemma_simplified_names(s.last());
        let r = simplified_all(s);
        assert(r.drop_last() =~= simplified_all(s.drop_last()));
        assert(names_in_all(r) == names_in_all(r.drop_last()) + names_in(r.last()));
        lemma_within_join(names_in_all(r.drop_last()), names_in(r.last()), names_in_all(s.drop_last()), names_in(s.last()));
    }
}

proof fn lemma_simplified_bindings_names(s: Seq<(Seq<char>, Term)>)
    ensures
        within(names_in_bindings(simplified_bindings(s)), names_in_bindings(s)),
    decreases s,
{
    if s.len() > 0 {
        lemma_simplified_bindings_names(s.drop_last());
        lemma_simplified_names(s.last().1);
        let r = simplified_bindings(s);
        assert(r.drop_last() =~= simplified_bindings(s.drop_last()));
        assert(names_in_bindings(r) == names_in_bindings(r.drop_last()) + seq![s.last().0] + names_in(r.last().1));
        assert(names_in_bindings(s) == names_in_bindings(s.drop_last()) + seq![s.last().0] + names_in(s.last().1));
        lemma_within_join(names_in_bindings(r.drop_last()), seq![s.last().0], names_in_bindings(s.drop_last()), seq![s.last().0]);
        lemma_within_join(names_in_bindings(r.drop_last()) + seq![s.last().0], names_in(r.last().1), names_in_bindings(s.drop_last()) + seq![s.last().0], names_in(s.last().1));
    }
}

proof fn lemma_replaced_names(t: Term, env: Env)
    requires
        literal_values(env),
    ensures
        within(names_in(replaced(t, env)), names_in(t)),
    decreases t,
{
    broadcast use vstd::seq_lib::lemma_seq_concat_contains_all_elements;

    match t {
        Term::Var(n) => {
            lemma_lookup_literal(env, n);
            if let Some(v) = lookup(env, n) {
                assert(names_in(v) =~= Seq::<Seq<char>>::empty());
            }
        },
        Term::Primitive { op, args } => {
            lemma_replaced_all_names(args, env);
        },
        Term::If { condition, then_branch, else_branch } => {
            lemma_replaced_names(*condition, env);
            lemma_replaced_names(*then_branch, env);
            lemma_replaced_names(*else_branch, env);
            lemma_within_join(names_in(replaced(*condition, env)), names_in(replaced(*then_branch, env)), names_in(*condition), names_in(*then_branch));
            lemma_within_join(names_in(replaced(*condition, env)) + names_in(replaced(*then_branch, env)), names_in(replaced(*else_branch, env)), names_in(*condition) + names_in(*then_branch), names_in(*else_branch));
        },
        Term::Let { bindings, body } => {
            lemma_replaced_bindings_names(bindings, env);
            lemma_replaced_names(*body, env);
            lemma_within_join(names_in_bindings(replaced_bindings(bindings, env)), names_in(replaced(*body, env)), names_in_bindings(bindings), names_in(*body));
        },

        Term::Call { callee, args } => {
            lemma_replaced_all_names(args, env);
            assert(names_in(t) == seq![callee] + names_in_all(args));
            assert(names_in(replaced(t, env)) == seq![callee] + names_in_all(replaced_all(args, env)));
            lemma_within_join(seq![callee], names_in_all(replaced_all(args, env)), seq![callee], names_in_all(args));
        },
        Term::Cons(h, tl) => {
            lemma_replaced_names(*h, env);
            lemma_replaced_names(*tl, env);
            lemma_within_join(names_in(replaced(*h, env)), names_in(replaced(*tl, env)), names_in(*h), names_in(*tl));
        },
        Term::Car(v) => lemma_replaced_names(*v, env),
        Term::Cdr(v) => lemma_replaced_names(*v, env),
        Term::Null(v) => lemma_replaced_names(*v, env),
        _ => {},
    }
}

proof fn lemma_replaced_all_names(s: Seq<Term>, env: Env)
    requires
        literal_values(env),
    ensures
        within(names_in_all(replaced_all(s, env)), names_in_all(s)),
    decreases s,
{
    if s.len() > 0 {
        lemma_replaced_all_names(s.drop_last(), env);
        lemma_replaced_names(s.last(), env);
        let r = replaced_all(s, env);
        assert(r.drop_last() =~= replaced_all(s.drop_last(), env));
        assert(names_in_all(r) == names_in_all(r.drop_last()) + names_in(r.last()));
        lemma_within_join(names_in_all(r.drop_last()), names_in(r.last()), names_in_all(s.drop_last()), names_in(s.last()));
    }
}

proof fn lemma_replaced_bindings_names(s: Seq<(Seq<char>, Term)>, env: Env)
    requires
        literal_values(env),
    ensures
        within(names_in_bindings(replaced_bindings(s, env)), names_in_bindings(s)),
    decreases s,
{
    if s.len() > 0 {
        lemma_replaced_bindings_names(s.drop_last(), env);
        lemma_replaced_names(s.last().1, env);
        let r = replaced_bindings(s, env);
        assert(r.drop_last() =~= replaced_bindings(s.drop_last(), env));
        assert(names_in_bindings(r) == names_in_bindings(r.drop_last()) + seq![s.last().0] + names_in(r.last().1));
        assert(names_in_bindings(s) == names_in_bindings(s.drop_last()) + seq![s.last().0] + names_in(s.last().1));
        lemma_within_join(names_in_bindings(r.drop_last()), seq![s.last().0], names_in_bindings(s.drop_last()), seq![s.last().0]);
        lemma_within_join(names_in_bindings(r.drop_last()) + seq![s.last().0], names_in(r.last().1), names_in_bindings(s.drop_last()) + seq![s.last().0], names_in(s.last().1));
    }
}

proof fn lemma_dropped_names(t: Term)
    ensures
        within(names_in(dropped(t)), names_in(t)),
    decreases t,
{
    broadcast use vstd::seq_lib::lemma_seq_concat_contains_all_elements;

    match t {
        Term::Let { bindings, body } => {
            lemma_dropped_bindings_names(bindings);
            lemma_dropped_names(*body);
            let b = dropped(*body);
            let kept = prune(dropped_bindings(bindings), b);
            lemma_prune_names(dropped_bindings(bindings), b);
            lemma_within_trans(names_in_bindings(kept), names_in_bindings(dropped_bindings(bindings)), names_in_bindings(bindings));
            lemma_within_join(names_in_bindings(kept), names_in(b), names_in_bindings(bindings), names_in(*body));
            lemma_within_parts(names_in_bindings(bindings), names_in(*body));
        },
        Term::Primitive { op, args } => {
            lemma_dropped_all_names(args);
        },
        Term::If { condition, then_branch, else_branch } => {
            lemma_dropped_names(*condition);
            lemma_dropped_names(*then_branch);
            lemma_dropped_names(*else_branch);
            lemma_within_join(names_in(dropped(*condition)), names_in(dropped(*then_branch)), names_in(*condition), names_in(*then_branch));
            lemma_within_join(names_in(dropped(*condition)) + names_in(dropped(*then_branch)), names_in(dropped(*else_branch)), names_in(*condition) + names_in(*then_branch), names_in(*else_branch));
        },

        Term::Call { callee, args } => {
            lemma_dropped_all_names(args);
            assert(names_in(t) == seq![callee] + names_in_all(args));
            assert(names_in(dropped(t)) == seq![callee] + names_in_all(dropped_all(args)));
            lemma_within_join(seq![callee], names_in_all(dropped_all(args)), seq![callee], names_in_all(args));
        },
        Term::Cons(h, tl) => {
            lemma_dropped_names(*h);
            lemma_dropped_names(*tl);
            lemma_within_join(names_in(dropped(*h)), names_in(dropped(*tl)), names_in(*h), names_in(*tl));
        },
        Term::Car(v) => lemma_dropped_names(*v),
        Term::Cdr(v) => lemma_dropped_names(*v),
        Term::Null(v) => lemma_dropped_names(*v),
        _ => {},
    }
}

proof fn lemma_dropped_all_names(s: Seq<Term>)
    ensures
        within(names_in_all(dropped_all(s)), names_in_all(s)),
    decreases s,
{
    if s.len() > 0 {
        lemma_dropped_all_names(s.drop_last());
        lemma_dropped_names(s.last());
        let r = dropped_all(s);
        assert(r.drop_last() =~= dropped_all(s.drop_last()));
        assert(names_in_all(r) == names_in_all(r.drop_last()) + names_in(r.last()));
        lemma_within_join(names_in_all(r.drop_last()), names_in(r.last()), names_in_all(s.drop_last()), names_in(s.last()));
    }
}

proof fn lemma_dropped_bindings_names(s: Seq<(Seq<char>, Term)>)
    ensures
        within(names_in_bindings(dropped_bindings(s)), names_in_bindings(s)),
    decreases s,
{
    if s.len() > 0 {
        lemma_dropped_bindings_names(s.drop_last());
        lemma_dropped_names(s.last().1);
        let r = dropped_bindings(s);
        assert(r.drop_last() =~= dropped_bindings(s.drop_last()));
        assert(names_in_bindings(r) == names_in_bindings(r.drop_last()) + seq![s.last().0] + names_in(r.last().1));
        assert(names_in_bindings(s) == names_in_bindings(s.drop_last()) + seq![s.last().0] + names_in(s.last().1));
        lemma_within_join(names_in_bindings(r.drop_last()), seq![s.last().0], names_in_bindings(s.drop_last()), seq![s.last().0]);
        lemma_within_join(names_in_bindings(r.drop_last()) + seq![s.last().0], names_in(r.last().1), names_in_bindings(s.drop_last()) + seq![s.last().0], names_in(s.last().1));
    }
}

proof fn lemma_propagated_names(t: Term, env: Env)
    requires
        literal_values(env),
    ensures
        within(names_in(propagated(t, env)), names_in(t)),
    decreases t,
{
    broadcast use vstd::seq_lib::lemma_seq_concat_contains_all_elements;

    match t {
        Term::Var(n) => {
            lemma_lookup_literal(env, n);
            if let Some(v) = lookup(env, n) {
                assert(names_in(v) =~= Seq::<Seq<char>>::empty());
            }
        },
        Term::Let { bindings, body } => {
            lemma_propagated_bindings_names(bindings, env);
            let (lits, kept) = propagated_bindings(bindings, env);
            lemma_literal_values_concat(lits, env);
            lemma_propagated_names(*body, lits + env);
            let b = propagated(*body, lits + env);
            lemma_within_join(names_in_bindings(kept), names_in(b), names_in_bindings(bindings), names_in(*body));
            lemma_within_parts(names_in_bindings(bindings), names_in(*body));
        },
        Term::Primitive { op, args } => {
            lemma_propagated_all_names(args, env);
        },
        Term::If { condition, then_branch, else_branch } => {
            lemma_propagated_names(*condition, env);
            lemma_propagated_names(*then_branch, env);
            lemma_propagated_names(*else_branch, env);
            lemma_within_join(names_in(propagated(*condition, env)), names_in(propagated(*then_branch, env)), names_in(*condition), names_in(*then_branch));
            lemma_within_join(names_in(propagated(*condition, env)) + names_in(propagated(*then_branch, env)), names_in(propagated(*else_branch, env)), names_in(*condition) + names_in(*then_branch), names_in(*else_branch));
        },

        Term::Call { callee, args } => {
            lemma_propagated_all_names(args, env);
            assert(names_in(t) == seq![callee] + names_in_all(args));
            assert(names_in(propagated(t, env)) == seq![callee] + names_in_all(propagated_all(args, env)));
            lemma_within_join(seq![callee], names_in_all(propagated_all(args, env)), seq![callee], names_in_all(args));
        },
        Term::Cons(h, tl) => {
            lemma_propagated_names(*h, env);
            lemma_propagated_names(*tl, env);
            lemma_within_join(names_in(propagated(*h, env)), names_in(propagated(*tl, env)), names_in(*h), names_in(*tl));
        },
        Term::Car(v) => lemma_propagated_names(*v, env),
        Term::Cdr(v) => lemma_propagated_names(*v, env),
        Term::Null(v) => lemma_propagated_names(*v, env),
        _ => {},
    }
}

proof fn lemma_propagated_all_names(s: Seq<Term>, env: Env)
    requires
        literal_values(env),
    ensures
        within(names_in_all(propagated_all(s, env)), names_in_all(s)),
    decreases s,
{
    if s.len() > 0 {
        lemma_propagated_all_names(s.drop_last(), env);
        lemma_propagated_names(s.last(), env);
        let r = propagated_all(s, env);
        assert(r.drop_last() =~= propagated_all(s.drop_last(), env));
        assert(names_in_all(r) == names_in_all(r.drop_last()) + names_in(r.last()));
        lemma_within_join(names_in_all(r.drop_last()), names_in(r.last()), names_in_all(s.drop_last()), names_in(s.last()));
    }
}

proof fn lemma_settle_step_names(t: Term, propagate: bool)
    ensures
        within(names_in(settle_step(t, propagate)), names_in(t)),
{
    let pre = if propagate {
        dropped(propagated(t, Seq::empty()))
    } else {
        t
    };
    if propagate {
        lemma_propagated_names(t, Seq::empty());
        lemma_dropped_names(propagated(t, Seq::empty()));
    }
    lemma_simplified_names(pre);
}

pub(crate) proof fn lemma_settled_names(t: Term, propagate: bool, rounds: nat)
    ensures
        within(names_in(settled(t, propagate, rounds)), names_in(t)),
    decreases rounds,
{
    if rounds > 0 {
        let next = settle_step(t, propagate);
        lemma_settle_step_names(t, propagate);
        if next != t {
            lemma_settled_names(next, propagate, (rounds - 1) as nat);
        }
    }
}

/// Finishing definitions with sharing on gives, once every `let` that
/// sharing introduced is undone (see `lemma_sharing_undone`), exactly the
/// definitions finished with sharing off: the same names and parameters, and
/// bodies that are the settled bodies.
pub proof fn lemma_finished_sharing_undone(defs: Seq<DefTerm>, propagate: bool, st: FreshState)
    requires
        st.used.finite(),
        forall|i: int| 0 <= i < defs.len() ==> all_used(names_in(#[trigger] defs[i].body), st.used),
    ensures
        ({
            let (a, s1) = finish_defs(defs, propagate, true, st);
            let (b, _) = finish_defs(defs, propagate, false, st);
            &&& a.len() == defs.len()
            &&& b.len() == defs.len()
            &&& s1.used.finite()
            &&& st.used.subset_of(s1.used)
            &&& forall|i: int|
                0 <= i < defs.len() ==> (#[trigger] a[i]).name == b[i].name && a[i].params == b[i].params && unshared(
                    a[i].body,
                    st.used,
                ) == b[i].body
        }),
    decreases defs.len(),
{
    if defs.len() > 0 {
        let front = defs.drop_last();
        assert forall|i: int| 0 <= i < front.len() implies all_used(names_in(#[trigger] front[i].body), st.used) by {
            assert(front[i] == defs[i]);
        }
        lemma_finished_sharing_undone(front, propagate, st);
        let (a0, s0) = finish_defs(front, propagate, true, st);
        let (b0, t0) = finish_defs(front, propagate, false, st);
        lemma_finish_without_sharing(front, propagate, st);
        let last = defs.len() - 1;
        assert(defs[last] == defs.last());
        let settled_body = settled(defs.last().body, propagate, 4);
        lemma_settled_names(defs.last().body, propagate, 4);
        lemma_within_trans(names_in(settled_body), names_in(defs.last().body), names_in(defs.last().body));
        assert(all_used(names_in(settled_body), st.used));
        lemma_unshared_shared(settled_body, s0, st.used);
        let (x, s2) = shared(settled_body, s0);
        let (a, s1) = finish_defs(defs, propagate, true, st);
        let (b, t1) = finish_defs(defs, propagate, false, st);
        assert(a == a0.push(with_body(defs.last(), x)));
        assert(b == b0.push(with_body(defs.last(), settled_body)));
        assert forall|i: int| 0 <= i < defs.len() implies (#[trigger] a[i]).name == b[i].name && a[i].params
            == b[i].params && unshared(a[i].body, st.used) == b[i].body by {
            if i < last {
                assert(a[i] == a0[i] && b[i] == b0[i]);
            }
        }
    }
}

/// Without sharing, finishing keeps the supply and the number of definitions.
proof fn lemma_finish_without_sharing(defs: Seq<DefTerm>, propagate: bool, st: FreshState)
    ensures
        finish_defs(defs, propagate, false, st).1 == st,
        finish_defs(defs, propagate, false, st).0.len() == defs.len(),
    decreases defs.len(),
{
    if defs.len() > 0 {
        lemma_finish_without_sharing(defs.drop_last(), propagate, st);
    }
}

// ---------------------------------------------------------------------------
// What a shared binding computes
// ---------------------------------------------------------------------------

proof fn lemma_substituted_all_index(a: Seq<Term>, name: Seq<char>, value: Term)
    ensures
        substituted_all(a, name, value).len() == a.len(),
        forall|i: int| 0 <= i < a.len() ==> #[trigger] substituted_all(a, name, value)[i] == substituted(a[i], name, value),
    decreases a.len(),
{
    if a.len() > 0 {
        lemma_substituted_all_index(a.drop_last(), name, value);
        assert forall|i: int| 0 <= i < a.len() implies #[trigger] substituted_all(a, name, value)[i] == substituted(
            a[i],
            name,
            value,
        ) by {
            if i < a.len() - 1 {
                assert(a.drop_last()[i] == a[i]);
            }
        }
    }
}

/// No name of `names` is one the tree `c` reads, nor `s`.
pub open spec fn clear_of(names: Seq<Seq<char>>, c: Term, s: Seq<char>) -> bool {
    forall|n: Seq<char>| #[trigger] names.contains(n) ==> !uses(c).contains(n) && n != s
}

proof fn lemma_clear_parts(a: Seq<Seq<char>>, b: Seq<Seq<char>>, c: Term, s: Seq<char>)
    requires
        clear_of(a + b, c, s),
    ensures
        clear_of(a, c, s),
        clear_of(b, c, s),
{
    lemma_within_parts(a, b);
}

proof fn lemma_binders_pair(a: Seq<Term>)
    requires
        a.len() == 2,
    ensures
        binders_of_all(a) == binders_of(a[0]) + binders_of(a[1]),
{
    let a1 = a.drop_last();
    let a0 = a1.drop_last();
    assert(a0.len() == 0);
    assert(a1.last() == a[0]);
    assert(binders_of_all(a0) =~= Seq::<Seq<char>>::empty());
    assert(binders_of_all(a1) == binders_of_all(a0) + binders_of(a[0]));
    assert(binders_of_all(a1) =~= binders_of(a[0]));
}

proof fn lemma_substituted_bindings_index(bs: Seq<(Seq<char>, Term)>, s: Seq<char>, c: Term)
    ensures
        substituted_bindings(bs, s, c).len() == bs.len(),
        forall|i: int| #![trigger substituted_bindings(bs, s, c)[i]] 0 <= i < bs.len() ==> substituted_bindings(bs, s, c)[i]
            == (bs[i].0, substituted(bs[i].1, s, c)),
    decreases bs.len(),
{
    if bs.len() > 0 {
        lemma_substituted_bindings_index(bs.drop_last(), s, c);
        assert forall|i: int| #![trigger substituted_bindings(bs, s, c)[i]] 0 <= i < bs.len() implies substituted_bindings(
            bs,
            s,
            c,
        )[i] == (bs[i].0, substituted(bs[i].1, s, c)) by {
            if i < bs.len() - 1 {
                assert(bs.drop_last()[i] == bs[i]);
            }
        }
    }
}

/// Every name a `let` binds is among its binders.
proof fn lemma_binders_index(bs: Seq<(Seq<char>, Term)>)
    ensures
        forall|i: int| #![trigger bs[i]] 0 <= i < bs.len() ==> binders_of_bindings(bs).contains(bs[i].0),
    decreases bs.len(),
{
    broadcast use vstd::seq_lib::lemma_seq_concat_contains_all_elements;

    if bs.len() > 0 {
        lemma_binders_index(bs.drop_last());
        let x = bs.last().0;
        assert(binders_of_bindings(bs) == binders_of_bindings(bs.drop_last()) + seq![x] + binders_of(bs.last().1));
        assert(seq![x][0] == x);
        assert forall|i: int| #![trigger bs[i]] 0 <= i < bs.len() implies binders_of_bindings(bs).contains(bs[i].0) by {
            if i < bs.len() - 1 {
                assert(bs.drop_last()[i] == bs[i]);
            }
        }
    }
}

/// A `let` leaves every name it does not bind as it was.
proof fn lemma_bound_in_outside(
    defs: Seq<DefTerm>,
    bs: Seq<(Seq<char>, Term)>,
    env: Map<Seq<char>, Value>,
    fuel: nat,
    names: Seq<Seq<char>>,
)
    requires
        forall|i: int| #![trigger bs[i]] 0 <= i < bs.len() ==> !names.contains(bs[i].0),
    ensures
        bound_in(defs, bs, env, fuel) matches Some(inner) ==> agree_on(inner, env, names),
    decreases bs.len(),
{
    if bs.len() > 0 {
        assert forall|i: int| #![trigger bs.drop_last()[i]] 0 <= i < bs.drop_last().len() implies !names.contains(
            bs.drop_last()[i].0,
        ) by {
            assert(bs.drop_last()[i] == bs[i]);
        }
        lemma_bound_in_outside(defs, bs.drop_last(), env, fuel, names);
        assert(bs[bs.len() - 1] == bs.last());
    }
}

/// Substituting a call-free tree for a variable computes what binding the
/// variable to the tree's value computes, when no `let` in `t` binds the
/// variable or a name the tree reads.
proof fn lemma_substituted_value(
    defs: Seq<DefTerm>,
    t: Term,
    s: Seq<char>,
    c: Term,
    v: Value,
    env: Map<Seq<char>, Value>,
    fuel: nat,
)
    requires
        !has_call(c),
        evaluated(defs, c, env, fuel) == Some(v),
        clear_of(binders_of(t), c, s),
    ensures
        evaluated(defs, substituted(t, s, c), env, fuel) == evaluated(defs, t, env.insert(s, v), fuel),
    decreases fuel, t,
{
    match t {
        Term::Var(n) => {},
        Term::Primitive { op, args } => {
            lemma_substituted_all_index(args, s, c);
            if args.len() == 2 {
                lemma_binders_pair(args);
                lemma_clear_parts(binders_of(args[0]), binders_of(args[1]), c, s);
                lemma_substituted_value(defs, args[0], s, c, v, env, fuel);
                lemma_substituted_value(defs, args[1], s, c, v, env, fuel);
            }
        },
        Term::Call { callee, args } => {
            lemma_substituted_values(defs, args, s, c, v, env, fuel);
        },
        Term::If { condition, then_branch, else_branch } => {
            lemma_clear_parts(binders_of(*condition) + binders_of(*then_branch), binders_of(*else_branch), c, s);
            lemma_clear_parts(binders_of(*condition), binders_of(*then_branch), c, s);
            lemma_substituted_value(defs, *condition, s, c, v, env, fuel);
            lemma_substituted_value(defs, *then_branch, s, c, v, env, fuel);
            lemma_substituted_value(defs, *else_branch, s, c, v, env, fuel);
        },
        Term::Let { bindings, body } => {
            lemma_clear_parts(binders_of_bindings(bindings), binders_of(*body), c, s);
            lemma_substituted_bindings_value(defs, bindings, s, c, v, env, fuel);
            let w = substituted_bindings(bindings, s, c);
            if let Some(inner) = bound_in(defs, w, env, fuel) {
                lemma_substituted_bindings_index(bindings, s, c);
                lemma_binders_index(bindings);
                assert forall|i: int| #![trigger w[i]] 0 <= i < w.len() implies !uses(c).contains(w[i].0) by {
                    assert(w[i].0 == bindings[i].0);
                    assert(bindings[i] == bindings[i]);
                }
                lemma_bound_in_outside(defs, w, env, fuel, uses(c));
                lemma_agreeing_scopes(defs, c, inner, env, fuel);
                lemma_substituted_value(defs, *body, s, c, v, inner, fuel);
            }
        },
        Term::Cons(h, tl) => {
            lemma_clear_parts(binders_of(*h), binders_of(*tl), c, s);
            lemma_substituted_value(defs, *h, s, c, v, env, fuel);
            lemma_substituted_value(defs, *tl, s, c, v, env, fuel);
        },
        Term::Car(x) => lemma_substituted_value(defs, *x, s, c, v, env, fuel),
        Term::Cdr(x) => lemma_substituted_value(defs, *x, s, c, v, env, fuel),
        Term::Null(x) => lemma_substituted_value(defs, *x, s, c, v, env, fuel),
        _ => {},
    }
}

proof fn lemma_substituted_values(
    defs: Seq<DefTerm>,
    a: Seq<Term>,
    s: Seq<char>,
    c: Term,
    v: Value,
    env: Map<Seq<char>, Value>,
    fuel: nat,
)
    requires
        !has_call(c),
        evaluated(defs, c, env, fuel) == Some(v),
        clear_of(binders_of_all(a), c, s),
    ensures
        evaluated_all(defs, substituted_all(a, s, c), env, fuel) == evaluated_all(defs, a, env.insert(s, v), fuel),
    decreases fuel, a,
{
    if a.len() > 0 {
        assert(binders_of_all(a) == binders_of_all(a.drop_last()) + binders_of(a.last()));
        lemma_clear_parts(binders_of_all(a.drop_last()), binders_of(a.last()), c, s);
        lemma_substituted_values(defs, a.drop_last(), s, c, v, env, fuel);
        lemma_substituted_value(defs, a.last(), s, c, v, env, fuel);
        let w = substituted_all(a, s, c);
        assert(w.drop_last() =~= substituted_all(a.drop_last(), s, c));
    }
}

/// The bindings with the tree substituted bind the same names to the same
/// values as the bindings with the variable bound; the variable stays bound
/// alongside.
proof fn lemma_substituted_bindings_value(
    defs: Seq<DefTerm>,
    bs: Seq<(Seq<char>, Term)>,
    s: Seq<char>,
    c: Term,
    v: Value,
    env: Map<Seq<char>, Value>,
    fuel: nat,
)
    requires
        !has_call(c),
        evaluated(defs, c, env, fuel) == Some(v),
        clear_of(binders_of_bindings(bs), c, s),
    ensures
        match (bound_in(defs, substituted_bindings(bs, s, c), env, fuel), bound_in(defs, bs, env.insert(s, v), fuel)) {
            (Some(a), Some(b)) => b == a.insert(s, v),
            (None, None) => true,
            _ => false,
        },
    decreases fuel, bs,
{
    if bs.len() > 0 {
        let front = bs.drop_last();
        let x = bs.last().0;
        assert(binders_of_bindings(bs) == binders_of_bindings(front) + seq![x] + binders_of(bs.last().1));
        lemma_clear_parts(binders_of_bindings(front) + seq![x], binders_of(bs.last().1), c, s);
        lemma_clear_parts(binders_of_bindings(front), seq![x], c, s);
        assert(seq![x].contains(x)) by {
            assert(seq![x][0] == x);
        }
        lemma_substituted_bindings_value(defs, front, s, c, v, env, fuel);
        let w = substituted_bindings(bs, s, c);
        let w0 = substituted_bindings(front, s, c);
        assert(w.drop_last() =~= w0);
        assert(w.last() == (x, substituted(bs.last().1, s, c)));
        if let Some(a0) = bound_in(defs, w0, env, fuel) {
            lemma_substituted_bindings_index(front, s, c);
            lemma_binders_index(front);
            assert forall|i: int| #![trigger w0[i]] 0 <= i < w0.len() implies !uses(c).contains(w0[i].0) by {
                assert(w0[i].0 == front[i].0);
                assert(front[i] == front[i]);
            }
            lemma_bound_in_outside(defs, w0, env, fuel, uses(c));
            lemma_agreeing_scopes(defs, c, a0, env, fuel);
            lemma_substituted_value(defs, bs.last().1, s, c, v, a0, fuel);
            if let Some(u) = evaluated(defs, substituted(bs.last().1, s, c), a0, fuel) {
                assert(a0.insert(s, v).insert(x, u) =~= a0.insert(x, u).insert(s, v));
            }
        }
    }
}

/// Every variable of `t` is in `scope` or bound by an enclosing `let`; a
/// `let` value sees the names bound before it in its own `let`.
pub open spec fn closed_in(t: Term, scope: Seq<Seq<char>>) -> bool
    decreases t,
{
    match t {
        Term::Var(n) => scope.contains(n),
        Term::Let { bindings, body } => closed_bindings(bindings, scope) && closed_in(
            *body,
            scope + bound_names(bindings),
        ),
        Term::Primitive { args, .. } => closed_all(args, scope),
        Term::Call { args, .. } => closed_all(args, scope),
        Term::If { condition, then_branch, else_branch } => closed_in(*condition, scope) && closed_in(
            *then_branch,
            scope,
        ) && closed_in(*else_branch, scope),
        Term::Cons(h, tl) => closed_in(*h, scope) && closed_in(*tl, scope),
        Term::Car(v) => closed_in(*v, scope),
        Term::Cdr(v) => closed_in(*v, scope),
        Term::Null(v) => closed_in(*v, scope),
        _ => true,
    }
}

pub open spec fn closed_all(s: Seq<Term>, scope: Seq<Seq<char>>) -> bool
    decreases s,
{
    s.len() == 0 || (closed_all(s.drop_last(), scope) && closed_in(s.last(), scope))
}

pub open spec fn closed_bindings(s: Seq<(Seq<char>, Term)>, scope: Seq<Seq<char>>) -> bool
    decreases s,
{
    s.len() == 0 || (closed_bindings(s.drop_last(), scope) && closed_in(
        s.last().1,
        scope + bound_names(s.drop_last()),
    ))
}

/// Every primitive of `t` has two operands, as lowering makes them.
pub open spec fn binary(t: Term) -> bool
    decreases t,
{
    match t {
        Term::Primitive { args, .. } => args.len() == 2 && binary_all(args),
        Term::Call { args, .. } => binary_all(args),
        Term::Let { bindings, body } => binary_bindings(bindings) && binary(*body),
        Term::If { condition, then_branch, else_branch } => binary(*condition) && binary(*then_branch) && binary(
            *else_branch,
        ),
        Term::Cons(h, tl) => binary(*h) && binary(*tl),
        Term::Car(v) => binary(*v),
        Term::Cdr(v) => binary(*v),
        Term::Null(v) => binary(*v),
        _ => true,
    }
}

pub open spec fn binary_all(s: Seq<Term>) -> bool
    decreases s,
{
    s.len() == 0 || (binary_all(s.drop_last()) && binary(s.last()))
}

pub open spec fn binary_bindings(s: Seq<(Seq<char>, Term)>) -> bool
    decreases s,
{
    s.len() == 0 || (binary_bindings(s.drop_last()) && binary(s.last().1))
}

/// A numeric tree whose literals fit, whose primitives have two operands and
/// whose variables are all bound has a value: only division can
/// fail, and it holds none.
proof fn lemma_numeric_evaluates(
    defs: Seq<DefTerm>,
    c: Term,
    env: Map<Seq<char>, Value>,
    fuel: nat,
    scope: Seq<Seq<char>>,
)
    requires
        total_numeric(c),
        literals_fit(c),
        binary(c),
        closed_in(c, scope),
        forall|n: Seq<char>| #[trigger] scope.contains(n) ==> env.contains_key(n),
    ensures
        evaluated(defs, c, env, fuel) is Some,
        within(uses(c), scope),
    decreases c,
{
    broadcast use vstd::seq_lib::lemma_seq_concat_contains_all_elements;

    match c {
        Term::Var(n) => {
            assert(uses(c) == seq![n]);
            assert forall|m: Seq<char>| #[trigger] seq![n].contains(m) implies scope.contains(m) by {
                let i = choose|i: int| 0 <= i < 1 && seq![n][i] == m;
                assert(seq![n][i] == n);
            }
        },
        Term::Primitive { op, args } => {
            let a1 = args.drop_last();
            let a0 = a1.drop_last();
            assert(a0.len() == 0);
            assert(a1.last() == args[0]);
            assert(args.last() == args[1]);
            assert(uses_all(a0) =~= Seq::<Seq<char>>::empty());
            assert(uses_all(args) == uses_all(a1) + uses(args[1]));
            assert(uses_all(a1) == uses_all(a0) + uses(args[0]));
            assert(total_numeric_all(args));
            assert(total_numeric_all(a1));
            assert(total_numeric(args[0]) && total_numeric(args[1]));
            assert(literals_fit_all(args));
            assert(literals_fit_all(a1));
            assert(literals_fit(args[0]) && literals_fit(args[1]));
            assert(binary_all(args));
            assert(binary_all(a1));
            assert(binary(args[0]) && binary(args[1]));
            assert(closed_all(args, scope));
            assert(closed_all(a1, scope));
            assert(closed_in(args[0], scope) && closed_in(args[1], scope));
            lemma_numeric_evaluates(defs, args[0], env, fuel, scope);
            lemma_numeric_evaluates(defs, args[1], env, fuel, scope);
            assert(uses(c) == uses_all(args));
        },
        _ => {},
    }
}

/// Substituting a `let`-free tree changes no binder.
proof fn lemma_substituted_binders(t: Term, s: Seq<char>, c: Term)
    requires
        let_count(c) == 0,
    ensures
        binders_of(substituted(t, s, c)) == binders_of(t),
    decreases t,
{
    match t {
        Term::Var(n) => {
            if n == s {
                lemma_let_free_binders(c);
            }
        },
        Term::Primitive { args, .. } => lemma_substituted_binders_all(args, s, c),
        Term::Call { args, .. } => lemma_substituted_binders_all(args, s, c),
        Term::If { condition, then_branch, else_branch } => {
            lemma_substituted_binders(*condition, s, c);
            lemma_substituted_binders(*then_branch, s, c);
            lemma_substituted_binders(*else_branch, s, c);
        },
        Term::Let { bindings, body } => {
            lemma_substituted_binders_bindings(bindings, s, c);
            lemma_substituted_binders(*body, s, c);
        },
        Term::Cons(h, tl) => {
            lemma_substituted_binders(*h, s, c);
            lemma_substituted_binders(*tl, s, c);
        },
        Term::Car(x) => lemma_substituted_binders(*x, s, c),
        Term::Cdr(x) => lemma_substituted_binders(*x, s, c),
        Term::Null(x) => lemma_substituted_binders(*x, s, c),
        _ => {},
    }
}

proof fn lemma_substituted_binders_all(a: Seq<Term>, s: Seq<char>, c: Term)
    requires
        let_count(c) == 0,
    ensures
        binders_of_all(substituted_all(a, s, c)) == binders_of_all(a),
    decreases a,
{
    if a.len() > 0 {
        lemma_substituted_binders_all(a.drop_last(), s, c);
        lemma_substituted_binders(a.last(), s, c);
        let w = substituted_all(a, s, c);
        assert(w.drop_last() =~= substituted_all(a.drop_last(), s, c));
    }
}

proof fn lemma_substituted_binders_bindings(a: Seq<(Seq<char>, Term)>, s: Seq<char>, c: Term)
    requires
        let_count(c) == 0,
    ensures
        binders_of_bindings(substituted_bindings(a, s, c)) == binders_of_bindings(a),
    decreases a,
{
    if a.len() > 0 {
        lemma_substituted_binders_bindings(a.drop_last(), s, c);
        lemma_substituted_binders(a.last().1, s, c);
        let w = substituted_bindings(a, s, c);
        assert(w.drop_last() =~= substituted_bindings(a.drop_last(), s, c));
    }
}

/// A term with no `let` binds nothing.
proof fn lemma_let_free_binders(t: Term)
    requires
        let_count(t) == 0,
    ensures
        binders_of(t) =~= Seq::<Seq<char>>::empty(),
    decreases t,
{
    match t {
        Term::Primitive { args, .. } => lemma_let_free_binders_all(args),
        Term::Call { args, .. } => lemma_let_free_binders_all(args),
        Term::If { condition, then_branch, else_branch } => {
            lemma_let_free_binders(*condition);
            lemma_let_free_binders(*then_branch);
            lemma_let_free_binders(*else_branch);
        },
        Term::Cons(h, tl) => {
            lemma_let_free_binders(*h);
            lemma_let_free_binders(*tl);
        },
        Term::Car(x) => lemma_let_free_binders(*x),
        Term::Cdr(x) => lemma_let_free_binders(*x),
        Term::Null(x) => lemma_let_free_binders(*x),
        _ => {},
    }
}

proof fn lemma_let_free_binders_all(a: Seq<Term>)
    requires
        let_count_all(a) == 0,
    ensures
        binders_of_all(a) =~= Seq::<Seq<char>>::empty(),
    decreases a,
{
    if a.len() > 0 {
        lemma_let_free_binders_all(a.drop_last());
        lemma_let_free_binders(a.last());
    }
}

/// A `let` that evaluates binds each of its names, and keeps every name it
/// was given.
proof fn lemma_bound_in_keys(defs: Seq<DefTerm>, bs: Seq<(Seq<char>, Term)>, env: Map<Seq<char>, Value>, fuel: nat)
    ensures
        bound_in(defs, bs, env, fuel) matches Some(inner) ==> forall|n: Seq<char>|
            #[trigger] inner.contains_key(n) <== env.contains_key(n) || bound_names(bs).contains(n),
    decreases bs.len(),
{
    if bs.len() > 0 {
        lemma_bound_in_keys(defs, bs.drop_last(), env, fuel);
        if let Some(inner) = bound_in(defs, bs, env, fuel) {
            assert forall|n: Seq<char>| env.contains_key(n) || bound_names(bs).contains(n) implies #[trigger] inner.contains_key(n) by {
                assert(bound_names(bs) == bound_names(bs.drop_last()).push(bs.last().0));
                if bound_names(bs).contains(n) && n != bs.last().0 {
                    let i = choose|i: int| 0 <= i < bound_names(bs).len() && bound_names(bs)[i] == n;
                    assert(bound_names(bs.drop_last())[i] == n);
                }
            }
        }
    }
}

/// A `let` of numeric trees whose names no `let` in the body rebinds, and
/// whose trees read no name the body binds, computes what substituting the
/// trees back for the names computes.
proof fn lemma_let_restores(
    defs: Seq<DefTerm>,
    bs: Seq<(Seq<char>, Term)>,
    body: Term,
    env: Map<Seq<char>, Value>,
    fuel: nat,
    scope: Seq<Seq<char>>,
)
    requires
        forall|i: int| #![trigger bs[i]] 0 <= i < bs.len() ==> total_numeric(bs[i].1) && clear_of(
            binders_of(body),
            bs[i].1,
            bs[i].0,
        ),
        closed_bindings(bs, scope),
        literals_fit_bindings(bs),
        binary_bindings(bs),
        forall|n: Seq<char>| #[trigger] scope.contains(n) ==> env.contains_key(n),
    ensures
        evaluated(defs, Term::Let { bindings: bs, body: Box::new(body) }, env, fuel) == evaluated(
            defs,
            restored(body, bs),
            env,
            fuel,
        ),
    decreases bs.len(),
{
    broadcast use vstd::seq_lib::lemma_seq_concat_contains_all_elements;

    if bs.len() == 0 {
    } else {
        let front = bs.drop_last();
        let (s, c) = bs.last();
        let last = bs.len() - 1;
        assert(bs[last] == bs.last());
        lemma_total_let_free(c);
        lemma_substituted_binders(body, s, c);
        let body2 = substituted(body, s, c);
        assert forall|i: int| #![trigger front[i]] 0 <= i < front.len() implies total_numeric(front[i].1) && clear_of(
            binders_of(body2),
            front[i].1,
            front[i].0,
        ) by {
            assert(front[i] == bs[i]);
        }
        lemma_let_restores(defs, front, body2, env, fuel, scope);
        if let Some(a0) = bound_in(defs, front, env, fuel) {
            lemma_bound_in_keys(defs, front, env, fuel);
            assert forall|n: Seq<char>| #[trigger] (scope + bound_names(front)).contains(n) implies a0.contains_key(n) by {
                if scope.contains(n) {
                    assert(env.contains_key(n));
                }
            }
            lemma_numeric_evaluates(defs, c, a0, fuel, scope + bound_names(front));
            let v = evaluated(defs, c, a0, fuel).unwrap();
            lemma_total_has_no_call(c);
            lemma_substituted_value(defs, body, s, c, v, a0, fuel);
            assert(bound_in(defs, bs, env, fuel) == Some(a0.insert(s, v)));
            assert(evaluated(defs, Term::Let { bindings: front, body: Box::new(body2) }, env, fuel) == evaluated(
                defs,
                body2,
                a0,
                fuel,
            ));
        } else {
            assert(bound_in(defs, bs, env, fuel) is None);
        }
        assert(restored(body, bs) == restored(body2, front));
    }
}

proof fn lemma_total_has_no_call(t: Term)
    requires
        total_numeric(t),
    ensures
        !has_call(t),
    decreases t,
{
    if let Term::Primitive { args, .. } = t {
        lemma_total_has_no_call_all(args);
    }
}

proof fn lemma_total_has_no_call_all(s: Seq<Term>)
    requires
        total_numeric_all(s),
    ensures
        !has_call_any(s),
    decreases s,
{
    if s.len() > 0 {
        lemma_total_has_no_call_all(s.drop_last());
        lemma_total_has_no_call(s.last());
    }
}

proof fn lemma_closed_bindings_each(bs: Seq<(Seq<char>, Term)>, scope: Seq<Seq<char>>)
    requires
        closed_bindings(bs, scope),
    ensures
        forall|i: int| #![trigger bs[i]] 0 <= i < bs.len() ==> closed_in(bs[i].1, scope + bound_names(bs.take(i))),
    decreases bs.len(),
{
    if bs.len() > 0 {
        let front = bs.drop_last();
        lemma_closed_bindings_each(front, scope);
        assert forall|i: int| #![trigger bs[i]] 0 <= i < bs.len() implies closed_in(
            bs[i].1,
            scope + bound_names(bs.take(i)),
        ) by {
            if i < bs.len() - 1 {
                assert(front[i] == bs[i]);
                assert(front.take(i) =~= bs.take(i));
            } else {
                assert(bs.take(i) =~= front);
            }
        }
    }
}

proof fn lemma_binary_bindings_each(bs: Seq<(Seq<char>, Term)>)
    requires
        binary_bindings(bs),
    ensures
        forall|i: int| #![trigger bs[i]] 0 <= i < bs.len() ==> binary(bs[i].1),
    decreases bs.len(),
{
    if bs.len() > 0 {
        lemma_binary_bindings_each(bs.drop_last());
        assert forall|i: int| #![trigger bs[i]] 0 <= i < bs.len() implies binary(bs[i].1) by {
            if i < bs.len() - 1 {
                assert(bs.drop_last()[i] == bs[i]);
            }
        }
    }
}

/// Every name a term binds is among the names it mentions.
proof fn lemma_binders_named(t: Term)
    ensures
        within(binders_of(t), names_in(t)),
    decreases t,
{
    match t {
        Term::Primitive { args, .. } => lemma_binders_named_all(args),
        Term::Call { callee, args } => {
            lemma_binders_named_all(args);
            lemma_within_parts(seq![callee], names_in_all(args));
            lemma_within_trans(binders_of_all(args), names_in_all(args), names_in(t));
        },
        Term::If { condition, then_branch, else_branch } => {
            lemma_binders_named(*condition);
            lemma_binders_named(*then_branch);
            lemma_binders_named(*else_branch);
            lemma_within_join(binders_of(*condition), binders_of(*then_branch), names_in(*condition), names_in(*then_branch));
            lemma_within_join(
                binders_of(*condition) + binders_of(*then_branch),
                binders_of(*else_branch),
                names_in(*condition) + names_in(*then_branch),
                names_in(*else_branch),
            );
        },
        Term::Let { bindings, body } => {
            lemma_binders_named_bindings(bindings);
            lemma_binders_named(*body);
            lemma_within_join(binders_of_bindings(bindings), binders_of(*body), names_in_bindings(bindings), names_in(*body));
        },
        Term::Cons(h, tl) => {
            lemma_binders_named(*h);
            lemma_binders_named(*tl);
            lemma_within_join(binders_of(*h), binders_of(*tl), names_in(*h), names_in(*tl));
        },
        Term::Car(x) => lemma_binders_named(*x),
        Term::Cdr(x) => lemma_binders_named(*x),
        Term::Null(x) => lemma_binders_named(*x),
        _ => {},
    }
}

proof fn lemma_binders_named_all(a: Seq<Term>)
    ensures
        within(binders_of_all(a), names_in_all(a)),
    decreases a,
{
    if a.len() > 0 {
        lemma_binders_named_all(a.drop_last());
        lemma_binders_named(a.last());
        lemma_within_join(binders_of_all(a.drop_last()), binders_of(a.last()), names_in_all(a.drop_last()), names_in(a.last()));
    }
}

proof fn lemma_binders_named_bindings(a: Seq<(Seq<char>, Term)>)
    ensures
        within(binders_of_bindings(a), names_in_bindings(a)),
    decreases a,
{
    if a.len() > 0 {
        lemma_binders_named_bindings(a.drop_last());
        lemma_binders_named(a.last().1);
        let x = a.last().0;
        lemma_within_join(binders_of_bindings(a.drop_last()), seq![x], names_in_bindings(a.drop_last()), seq![x]);
        lemma_within_join(
            binders_of_bindings(a.drop_last()) + seq![x],
            binders_of(a.last().1),
            names_in_bindings(a.drop_last()) + seq![x],
            names_in(a.last().1),
        );
    }
}

/// Substituting `let`-free trees back changes no binder.
proof fn lemma_restored_binders(t: Term, bs: Seq<(Seq<char>, Term)>)
    requires
        forall|i: int| #![trigger bs[i]] 0 <= i < bs.len() ==> let_count(bs[i].1) == 0,
    ensures
        binders_of(restored(t, bs)) == binders_of(t),
    decreases bs.len(),
{
    if bs.len() > 0 {
        assert(bs[bs.len() - 1] == bs.last());
        lemma_substituted_binders(t, bs.last().0, bs.last().1);
        assert forall|i: int| #![trigger bs.drop_last()[i]] 0 <= i < bs.drop_last().len() implies let_count(
            bs.drop_last()[i].1,
        ) == 0 by {
            assert(bs.drop_last()[i] == bs[i]);
        }
        lemma_restored_binders(substituted(t, bs.last().0, bs.last().1), bs.drop_last());
    }
}

/// One round of sharing at a node never changes what the node computes, when
/// the node rebinds no name in scope and the `let` the round introduces is
/// closed in that scope (each tree it binds reads only names bound where the
/// `let` stands), keeps its literals in range and gives each primitive two
/// operands.
pub proof fn lemma_hoisting_keeps_value(
    defs: Seq<DefTerm>,
    cur: Term,
    st: FreshState,
    env: Map<Seq<char>, Value>,
    fuel: nat,
    scope: Seq<Seq<char>>,
)
    requires
        st.used.finite(),
        all_used(names_in(cur), st.used),
        forall|n: Seq<char>| #[trigger] scope.contains(n) ==> env.contains_key(n),
        forall|n: Seq<char>| #[trigger] binders_of(cur).contains(n) ==> !scope.contains(n),
        closed_in(hoist_all(cur, st).0, scope),
        literals_fit(hoist_all(cur, st).0),
        binary(hoist_all(cur, st).0),
    ensures
        evaluated(defs, hoist_all(cur, st).0, env, fuel) == evaluated(defs, cur, env, fuel),
{
    broadcast use vstd::seq_lib::lemma_seq_concat_contains_all_elements;

    lemma_hoisting_substitutes_back(cur, st);
    let (body, bs, _) = hoisted(cur, Seq::empty(), st);
    if bs.len() > 0 {
        assert forall|i: int| #![trigger bs[i]] 0 <= i < bs.len() implies let_count(bs[i].1) == 0 by {
            assert(!st.used.contains(bs[i].0));
            lemma_total_let_free(bs[i].1);
        }
        lemma_restored_binders(body, bs);
        lemma_binders_named(cur);
        lemma_closed_bindings_each(bs, scope);
        lemma_literals_fit_each_binding(bs);
        lemma_binary_bindings_each(bs);
        lemma_bound_names_index(bs);
        assert forall|i: int| #![trigger bs[i]] 0 <= i < bs.len() implies total_numeric(bs[i].1) && clear_of(
            binders_of(body),
            bs[i].1,
            bs[i].0,
        ) by {
            let c = bs[i].1;
            assert(!st.used.contains(bs[i].0));
            let sc = scope + bound_names(bs.take(i));
            assert(forall|n: Seq<char>| #[trigger] sc.contains(n) ==> true);
            lemma_numeric_evaluates(defs, c, Map::new(|n: Seq<char>| sc.contains(n), |n: Seq<char>| Value::Nil), fuel, sc);
            assert forall|n: Seq<char>| #[trigger] binders_of(body).contains(n) implies !uses(c).contains(n) && n
                != bs[i].0 by {
                assert(binders_of(cur).contains(n));
                assert(names_in(cur).contains(n));
                assert(st.used.contains(n));
                if uses(c).contains(n) {
                    assert(sc.contains(n));
                    if !scope.contains(n) {
                        assert(bound_names(bs.take(i)).contains(n));
                        let j = choose|j: int| 0 <= j < bound_names(bs.take(i)).len() && bound_names(bs.take(i))[j] == n;
                        lemma_bound_names_index(bs.take(i));
                        assert(bs.take(i)[j] == bs[j]);
                    }
                }
            }
        }
        lemma_let_restores(defs, bs, body, env, fuel, scope);
    }
}

// ---------------------------------------------------------------------------
// Substituting a tree back keeps a term well formed
// ---------------------------------------------------------------------------

/// A numeric tree whose variables are in `scope` is closed in it.
proof fn lemma_numeric_closed(c: Term, scope: Seq<Seq<char>>)
    requires
        total_numeric(c),
        within(uses(c), scope),
    ensures
        closed_in(c, scope),
    decreases c,
{
    broadcast use vstd::seq_lib::lemma_seq_concat_contains_all_elements;

    match c {
        Term::Var(n) => {
            assert(uses(c) == seq![n]);
            assert(seq![n][0] == n);
            assert(seq![n].contains(n));
            assert(uses(c).contains(n));
        },
        Term::Primitive { args, .. } => lemma_numeric_closed_all(args, scope),
        _ => {},
    }
}

proof fn lemma_numeric_closed_all(s: Seq<Term>, scope: Seq<Seq<char>>)
    requires
        total_numeric_all(s),
        within(uses_all(s), scope),
    ensures
        closed_all(s, scope),
    decreases s,
{
    broadcast use vstd::seq_lib::lemma_seq_concat_contains_all_elements;

    if s.len() > 0 {
        assert(uses_all(s) == uses_all(s.drop_last()) + uses(s.last()));
        lemma_within_parts(uses_all(s.drop_last()), uses(s.last()));
        lemma_within_trans(uses_all(s.drop_last()), uses_all(s), scope);
        lemma_within_trans(uses(s.last()), uses_all(s), scope);
        lemma_numeric_closed_all(s.drop_last(), scope);
        lemma_numeric_closed(s.last(), scope);
    }
}

/// A term with no `let` rebinds nothing.
proof fn lemma_let_free_unshadowed(t: Term, scope: Seq<Seq<char>>)
    requires
        let_count(t) == 0,
    ensures
        unshadowed(t, scope),
    decreases t,
{
    match t {
        Term::Primitive { args, .. } => lemma_let_free_unshadowed_all(args, scope),
        Term::Call { args, .. } => lemma_let_free_unshadowed_all(args, scope),
        Term::If { condition, then_branch, else_branch } => {
            lemma_let_free_unshadowed(*condition, scope);
            lemma_let_free_unshadowed(*then_branch, scope);
            lemma_let_free_unshadowed(*else_branch, scope);
        },
        Term::Cons(h, tl) => {
            lemma_let_free_unshadowed(*h, scope);
            lemma_let_free_unshadowed(*tl, scope);
        },
        Term::Car(x) => lemma_let_free_unshadowed(*x, scope),
        Term::Cdr(x) => lemma_let_free_unshadowed(*x, scope),
        Term::Null(x) => lemma_let_free_unshadowed(*x, scope),
        _ => {},
    }
}

proof fn lemma_let_free_unshadowed_all(a: Seq<Term>, scope: Seq<Seq<char>>)
    requires
        let_count_all(a) == 0,
    ensures
        unshadowed_all(a, scope),
    decreases a,
{
    if a.len() > 0 {
        lemma_let_free_unshadowed_all(a.drop_last(), scope);
        lemma_let_free_unshadowed(a.last(), scope);
    }
}

proof fn lemma_substituted_names_kept(bs: Seq<(Seq<char>, Term)>, s: Seq<char>, c: Term)
    ensures
        bound_names(substituted_bindings(bs, s, c)) == bound_names(bs),
    decreases bs.len(),
{
    if bs.len() > 0 {
        lemma_substituted_names_kept(bs.drop_last(), s, c);
        let w = substituted_bindings(bs, s, c);
        assert(w.drop_last() =~= substituted_bindings(bs.drop_last(), s, c));
    }
}

/// Substituting a closed numeric tree for a variable keeps a term closed,
/// rebinding nothing new, with its literals in range and its primitives
/// binary.
proof fn lemma_substituted_well_formed(
    t: Term,
    s: Seq<char>,
    c: Term,
    x: Seq<Seq<char>>,
    y: Seq<Seq<char>>,
    u: Seq<Seq<char>>,
)
    requires
        total_numeric(c),
        literals_fit(c),
        binary(c),
        within(uses(c), y),
        forall|n: Seq<char>| #[trigger] x.contains(n) ==> y.contains(n) || n == s,
    ensures
        closed_in(t, x) ==> closed_in(substituted(t, s, c), y),
        unshadowed(t, u) ==> unshadowed(substituted(t, s, c), u),
        literals_fit(t) ==> literals_fit(substituted(t, s, c)),
        binary(t) ==> binary(substituted(t, s, c)),
    decreases t,
{
    broadcast use vstd::seq_lib::lemma_seq_concat_contains_all_elements;

    lemma_total_let_free(c);
    match t {
        Term::Var(n) => {
            if n == s {
                lemma_numeric_closed(c, y);
                lemma_let_free_unshadowed(c, u);
            }
        },
        Term::Primitive { args, .. } => {
            lemma_substituted_well_formed_all(args, s, c, x, y, u);
            lemma_substituted_all_index(args, s, c);
        },
        Term::Call { args, .. } => lemma_substituted_well_formed_all(args, s, c, x, y, u),
        Term::If { condition, then_branch, else_branch } => {
            lemma_substituted_well_formed(*condition, s, c, x, y, u);
            lemma_substituted_well_formed(*then_branch, s, c, x, y, u);
            lemma_substituted_well_formed(*else_branch, s, c, x, y, u);
        },
        Term::Let { bindings, body } => {
            lemma_substituted_well_formed_bindings(bindings, s, c, x, y, u);
            lemma_substituted_names_kept(bindings, s, c);
            let b = bound_names(bindings);
            assert forall|n: Seq<char>| #[trigger] (x + b).contains(n) implies (y + b).contains(n) || n == s by {
                if x.contains(n) {
                    assert(y.contains(n) || n == s);
                }
            }
            lemma_within_parts(y, b);
            lemma_within_trans(uses(c), y, y + b);
            lemma_substituted_well_formed(*body, s, c, x + b, y + b, u + b);
        },
        Term::Cons(h, tl) => {
            lemma_substituted_well_formed(*h, s, c, x, y, u);
            lemma_substituted_well_formed(*tl, s, c, x, y, u);
        },
        Term::Car(v) => lemma_substituted_well_formed(*v, s, c, x, y, u),
        Term::Cdr(v) => lemma_substituted_well_formed(*v, s, c, x, y, u),
        Term::Null(v) => lemma_substituted_well_formed(*v, s, c, x, y, u),
        _ => {},
    }
}

proof fn lemma_substituted_well_formed_all(
    a: Seq<Term>,
    s: Seq<char>,
    c: Term,
    x: Seq<Seq<char>>,
    y: Seq<Seq<char>>,
    u: Seq<Seq<char>>,
)
    requires
        total_numeric(c),
        literals_fit(c),
        binary(c),
        within(uses(c), y),
        forall|n: Seq<char>| #[trigger] x.contains(n) ==> y.contains(n) || n == s,
    ensures
        closed_all(a, x) ==> closed_all(substituted_all(a, s, c), y),
        unshadowed_all(a, u) ==> unshadowed_all(substituted_all(a, s, c), u),
        literals_fit_all(a) ==> literals_fit_all(substituted_all(a, s, c)),
        binary_all(a) ==> binary_all(substituted_all(a, s, c)),
        substituted_all(a, s, c).len() == a.len(),
    decreases a,
{
    if a.len() > 0 {
        lemma_substituted_well_formed_all(a.drop_last(), s, c, x, y, u);
        lemma_substituted_well_formed(a.last(), s, c, x, y, u);
        let w = substituted_all(a, s, c);
        assert(w.drop_last() =~= substituted_all(a.drop_last(), s, c));
    }
}

proof fn lemma_substituted_well_formed_bindings(
    a: Seq<(Seq<char>, Term)>,
    s: Seq<char>,
    c: Term,
    x: Seq<Seq<char>>,
    y: Seq<Seq<char>>,
    u: Seq<Seq<char>>,
)
    requires
        total_numeric(c),
        literals_fit(c),
        binary(c),
        within(uses(c), y),
        forall|n: Seq<char>| #[trigger] x.contains(n) ==> y.contains(n) || n == s,
    ensures
        closed_bindings(a, x) ==> closed_bindings(substituted_bindings(a, s, c), y),
        unshadowed_bindings(a, u) ==> unshadowed_bindings(substituted_bindings(a, s, c), u),
        literals_fit_bindings(a) ==> literals_fit_bindings(substituted_bindings(a, s, c)),
        binary_bindings(a) ==> binary_bindings(substituted_bindings(a, s, c)),
    decreases a,
{
    broadcast use vstd::seq_lib::lemma_seq_concat_contains_all_elements;

    if a.len() > 0 {
        let front = a.drop_last();
        lemma_substituted_well_formed_bindings(front, s, c, x, y, u);
        lemma_substituted_names_kept(front, s, c);
        let b = bound_names(front);
        assert forall|n: Seq<char>| #[trigger] (x + b).contains(n) implies (y + b).contains(n) || n == s by {
            if x.contains(n) {
                assert(y.contains(n) || n == s);
            }
        }
        lemma_within_parts(y, b);
        lemma_within_trans(uses(c), y, y + b);
        lemma_substituted_well_formed(a.last().1, s, c, x + b, y + b, u + b);
        let w = substituted_bindings(a, s, c);
        assert(w.drop_last() =~= substituted_bindings(front, s, c));
        assert(w.last() == (a.last().0, substituted(a.last().1, s, c)));
    }
}

/// No `let` in a term that rebinds no name of `scope` binds a name of it.
#[verifier::spinoff_prover]
#[verifier::rlimit(30)]
proof fn lemma_unshadowed_binders(t: Term, scope: Seq<Seq<char>>)
    requires
        unshadowed(t, scope),
    ensures
        forall|n: Seq<char>| #[trigger] binders_of(t).contains(n) ==> !scope.contains(n),
    decreases t,
{
    broadcast use vstd::seq_lib::lemma_seq_concat_contains_all_elements;

    match t {
        Term::Primitive { args, .. } => {
            lemma_unshadowed_binders_all(args, scope);
            assert(binders_of(t) == binders_of_all(args));
        },
        Term::Call { args, .. } => {
            lemma_unshadowed_binders_all(args, scope);
            assert(binders_of(t) == binders_of_all(args));
        },
        Term::If { condition, then_branch, else_branch } => {
            lemma_unshadowed_binders(*condition, scope);
            lemma_unshadowed_binders(*then_branch, scope);
            lemma_unshadowed_binders(*else_branch, scope);
            assert(binders_of(t) == binders_of(*condition) + binders_of(*then_branch) + binders_of(*else_branch));
        },
        Term::Let { bindings, body } => {
            lemma_unshadowed_binders_bindings(bindings, scope);
            lemma_unshadowed_binders(*body, scope + bound_names(bindings));
            assert(binders_of(t) == binders_of_bindings(bindings) + binders_of(*body));
            assert forall|n: Seq<char>| #[trigger] binders_of(t).contains(n) implies !scope.contains(n) by {
                if binders_of(*body).contains(n) {
                    assert(!(scope + bound_names(bindings)).contains(n));
                    if scope.contains(n) {
                        assert((scope + bound_names(bindings)).contains(n));
                    }
                }
            }
        },
        Term::Cons(h, tl) => {
            lemma_unshadowed_binders(*h, scope);
            lemma_unshadowed_binders(*tl, scope);
            assert(binders_of(t) == binders_of(*h) + binders_of(*tl));
        },
        Term::Car(x) => {
            lemma_unshadowed_binders(*x, scope);
            assert(binders_of(t) == binders_of(*x));
        },
        Term::Cdr(x) => {
            lemma_unshadowed_binders(*x, scope);
            assert(binders_of(t) == binders_of(*x));
        },
        Term::Null(x) => {
            lemma_unshadowed_binders(*x, scope);
            assert(binders_of(t) == binders_of(*x));
        },
        _ => {
            assert(binders_of(t) =~= Seq::<Seq<char>>::empty());
        },
    }
}

proof fn lemma_unshadowed_binders_all(a: Seq<Term>, scope: Seq<Seq<char>>)
    requires
        unshadowed_all(a, scope),
    ensures
        forall|n: Seq<char>| #[trigger] binders_of_all(a).contains(n) ==> !scope.contains(n),
    decreases a,
{
    broadcast use vstd::seq_lib::lemma_seq_concat_contains_all_elements;

    if a.len() > 0 {
        lemma_unshadowed_binders_all(a.drop_last(), scope);
        lemma_unshadowed_binders(a.last(), scope);
        assert(binders_of_all(a) == binders_of_all(a.drop_last()) + binders_of(a.last()));
    }
}

proof fn lemma_unshadowed_binders_bindings(a: Seq<(Seq<char>, Term)>, scope: Seq<Seq<char>>)
    requires
        unshadowed_bindings(a, scope),
    ensures
        forall|n: Seq<char>| #[trigger] binders_of_bindings(a).contains(n) ==> !scope.contains(n),
    decreases a,
{
    broadcast use vstd::seq_lib::lemma_seq_concat_contains_all_elements;

    if a.len() > 0 {
        let front = a.drop_last();
        lemma_unshadowed_binders_bindings(front, scope);
        lemma_unshadowed_binders(a.last().1, scope + bound_names(front));
        assert(binders_of_bindings(a) == binders_of_bindings(front) + seq![a.last().0] + binders_of(a.last().1));
        assert forall|n: Seq<char>| #[trigger] binders_of_bindings(a).contains(n) implies !scope.contains(n) by {
            if seq![a.last().0].contains(n) {
                assert(seq![a.last().0][0] == a.last().0);
                let i = choose|i: int| 0 <= i < 1 && seq![a.last().0][i] == n;
                assert(seq![a.last().0][i] == a.last().0);
            }
        }
    }
}

/// Substituting back the bindings of a well-formed `let` of numeric trees
/// gives a well-formed term in the scope the `let` stood in.
proof fn lemma_restored_well_formed(x: Term, bs: Seq<(Seq<char>, Term)>, scope: Seq<Seq<char>>)
    requires
        forall|i: int| #![trigger bs[i]] 0 <= i < bs.len() ==> total_numeric(bs[i].1),
        closed_bindings(bs, scope),
        literals_fit_bindings(bs),
        binary_bindings(bs),
        closed_in(x, scope + bound_names(bs)),
        unshadowed(x, scope + bound_names(bs)),
        literals_fit(x),
        binary(x),
    ensures
        closed_in(restored(x, bs), scope),
        unshadowed(restored(x, bs), scope),
        literals_fit(restored(x, bs)),
        binary(restored(x, bs)),
    decreases bs.len(),
{
    broadcast use vstd::seq_lib::lemma_seq_concat_contains_all_elements;

    if bs.len() == 0 {
        assert(scope + bound_names(bs) =~= scope);
    } else {
        let front = bs.drop_last();
        let (s, c) = bs.last();
        assert(bs[bs.len() - 1] == bs.last());
        let y = scope + bound_names(front);
        let xs = scope + bound_names(bs);
        assert(bound_names(bs) == bound_names(front).push(s));
        assert(xs =~= y.push(s));
        lemma_numeric_evaluates(
            Seq::empty(),
            c,
            Map::new(|n: Seq<char>| y.contains(n), |n: Seq<char>| Value::Nil),
            0,
            y,
        );
        assert forall|n: Seq<char>| #[trigger] xs.contains(n) implies y.contains(n) || n == s by {
            if n != s {
                let i = choose|i: int| 0 <= i < xs.len() && xs[i] == n;
                assert(y.push(s)[i] == n);
                if i < y.len() {
                    assert(y[i] == n);
                }
            }
        }
        lemma_substituted_well_formed(x, s, c, xs, y, xs);
        lemma_within_parts(y, seq![s]);
        assert(y + seq![s] =~= xs);
        lemma_unshadowed_fewer(substituted(x, s, c), xs, y);
        assert forall|i: int| #![trigger front[i]] 0 <= i < front.len() implies total_numeric(front[i].1) by {
            assert(front[i] == bs[i]);
        }
        lemma_restored_well_formed(substituted(x, s, c), front, scope);
    }
}

// ---------------------------------------------------------------------------
// Sharing keeps values
// ---------------------------------------------------------------------------

/// The names bound before a binding are among the names the whole `let`
/// binds.
proof fn lemma_bound_prefix(bs: Seq<(Seq<char>, Term)>, i: int)
    requires
        0 <= i <= bs.len(),
    ensures
        within(bound_names(bs.take(i)), bound_names(bs)),
{
    lemma_bound_names_index(bs);
    lemma_bound_names_index(bs.take(i));
    assert forall|n: Seq<char>| #[trigger] bound_names(bs.take(i)).contains(n) implies bound_names(bs).contains(n) by {
        let j = choose|j: int| 0 <= j < bound_names(bs.take(i)).len() && bound_names(bs.take(i))[j] == n;
        assert(bs.take(i)[j] == bs[j]);
        assert(bound_names(bs)[j] == n);
    }
}

/// A well-formed term computes what it computes with every `let` that
/// sharing introduced undone: a term closed in `scope`, rebinding no name in
/// scope, with literals in range and binary primitives.
proof fn lemma_unshared_value(
    defs: Seq<DefTerm>,
    t: Term,
    used: Set<Seq<char>>,
    env: Map<Seq<char>, Value>,
    fuel: nat,
    scope: Seq<Seq<char>>,
)
    requires
        closed_in(t, scope),
        unshadowed(t, scope),
        literals_fit(t),
        binary(t),
        forall|n: Seq<char>| #[trigger] scope.contains(n) ==> env.contains_key(n),
    ensures
        evaluated(defs, unshared(t, used), env, fuel) == evaluated(defs, t, env, fuel),
    decreases let_count(t), t,
{
    broadcast use vstd::seq_lib::lemma_seq_concat_contains_all_elements;

    match t {
        Term::Let { bindings, body } => {
            let bn = bound_names(bindings);
            if introduced(bindings, used) {
                lemma_unshadowed_binders(*body, scope + bn);
                lemma_closed_bindings_each(bindings, scope);
                lemma_literals_fit_each_binding(bindings);
                lemma_binary_bindings_each(bindings);
                lemma_bound_names_index(bindings);
                assert forall|i: int| #![trigger bindings[i]] 0 <= i < bindings.len() implies total_numeric(
                    bindings[i].1,
                ) && clear_of(binders_of(*body), bindings[i].1, bindings[i].0) by {
                    let c = bindings[i].1;
                    let sc = scope + bound_names(bindings.take(i));
                    lemma_numeric_evaluates(
                        defs,
                        c,
                        Map::new(|n: Seq<char>| sc.contains(n), |n: Seq<char>| Value::Nil),
                        fuel,
                        sc,
                    );
                    lemma_bound_prefix(bindings, i);
                    assert(bn[i] == bindings[i].0);
                    assert forall|n: Seq<char>| #[trigger] binders_of(*body).contains(n) implies !uses(c).contains(n)
                        && n != bindings[i].0 by {
                        assert(!(scope + bn).contains(n));
                        if uses(c).contains(n) {
                            assert(sc.contains(n));
                        }
                        if n == bindings[i].0 {
                            assert(bn.contains(n));
                        }
                    }
                }
                lemma_let_restores(defs, bindings, *body, env, fuel, scope);
                assert forall|i: int| #![trigger bindings[i]] 0 <= i < bindings.len() implies let_count(bindings[i].1)
                    == 0 by {
                }
                lemma_restored_let_count(*body, bindings);
                lemma_restored_well_formed(*body, bindings, scope);
                lemma_unshared_value(defs, restored(*body, bindings), used, env, fuel, scope);
                assert(unshared(t, used) == unshared(restored(*body, bindings), used));
            } else {
                lemma_unshared_bindings_value(defs, bindings, used, env, fuel, scope);
                if let Some(inner) = bound_in(defs, bindings, env, fuel) {
                    lemma_bound_in_keys(defs, bindings, env, fuel);
                    assert forall|n: Seq<char>| #[trigger] (scope + bn).contains(n) implies inner.contains_key(n) by {
                        if scope.contains(n) {
                            assert(env.contains_key(n));
                        }
                    }
                    lemma_unshared_value(defs, *body, used, inner, fuel, scope + bn);
                }
                assert(unshared(t, used) == Term::Let {
                    bindings: unshared_bindings(bindings, used),
                    body: Box::new(unshared(*body, used)),
                });
            }
        },
        Term::Primitive { op, args } => {
            lemma_unshared_all_value(defs, args, used, env, fuel, scope);
            let ua = unshared_all(args, used);
            assert(unshared(t, used) == Term::Primitive { op, args: ua });
            if args.len() == 2 {
                assert(evaluated(defs, ua[0], env, fuel) == evaluated(defs, args[0], env, fuel));
                assert(evaluated(defs, ua[1], env, fuel) == evaluated(defs, args[1], env, fuel));
            }
        },
        Term::Call { callee, args } => {
            lemma_unshared_all_value(defs, args, used, env, fuel, scope);
            assert(unshared(t, used) == Term::Call { callee, args: unshared_all(args, used) });
        },
        Term::If { condition, then_branch, else_branch } => {
            lemma_unshared_value(defs, *condition, used, env, fuel, scope);
            lemma_unshared_value(defs, *then_branch, used, env, fuel, scope);
            lemma_unshared_value(defs, *else_branch, used, env, fuel, scope);
        },
        Term::Cons(h, tl) => {
            lemma_unshared_value(defs, *h, used, env, fuel, scope);
            lemma_unshared_value(defs, *tl, used, env, fuel, scope);
        },
        Term::Car(x) => lemma_unshared_value(defs, *x, used, env, fuel, scope),
        Term::Cdr(x) => lemma_unshared_value(defs, *x, used, env, fuel, scope),
        Term::Null(x) => lemma_unshared_value(defs, *x, used, env, fuel, scope),
        _ => {},
    }
}

proof fn lemma_unshared_all_value(
    defs: Seq<DefTerm>,
    a: Seq<Term>,
    used: Set<Seq<char>>,
    env: Map<Seq<char>, Value>,
    fuel: nat,
    scope: Seq<Seq<char>>,
)
    requires
        closed_all(a, scope),
        unshadowed_all(a, scope),
        literals_fit_all(a),
        binary_all(a),
        forall|n: Seq<char>| #[trigger] scope.contains(n) ==> env.contains_key(n),
    ensures
        unshared_all(a, used).len() == a.len(),
        forall|i: int| 0 <= i < a.len() ==> #[trigger] evaluated(defs, unshared_all(a, used)[i], env, fuel) == evaluated(
            defs,
            a[i],
            env,
            fuel,
        ),
        evaluated_all(defs, unshared_all(a, used), env, fuel) == evaluated_all(defs, a, env, fuel),
    decreases let_count_all(a), a,
{
    if a.len() > 0 {
        lemma_unshared_all_value(defs, a.drop_last(), used, env, fuel, scope);
        lemma_unshared_value(defs, a.last(), used, env, fuel, scope);
        let w = unshared_all(a, used);
        assert(w.drop_last() =~= unshared_all(a.drop_last(), used));
        assert forall|i: int| 0 <= i < a.len() implies #[trigger] evaluated(defs, w[i], env, fuel) == evaluated(
            defs,
            a[i],
            env,
            fuel,
        ) by {
            if i < a.len() - 1 {
                assert(w[i] == w.drop_last()[i]);
                assert(a[i] == a.drop_last()[i]);
            }
        }
    }
}

proof fn lemma_unshared_bindings_value(
    defs: Seq<DefTerm>,
    bs: Seq<(Seq<char>, Term)>,
    used: Set<Seq<char>>,
    env: Map<Seq<char>, Value>,
    fuel: nat,
    scope: Seq<Seq<char>>,
)
    requires
        closed_bindings(bs, scope),
        unshadowed_bindings(bs, scope),
        literals_fit_bindings(bs),
        binary_bindings(bs),
        forall|n: Seq<char>| #[trigger] scope.contains(n) ==> env.contains_key(n),
    ensures
        bound_in(defs, unshared_bindings(bs, used), env, fuel) == bound_in(defs, bs, env, fuel),
        bound_names(unshared_bindings(bs, used)) == bound_names(bs),
    decreases let_count_bindings(bs), bs,
{
    broadcast use vstd::seq_lib::lemma_seq_concat_contains_all_elements;

    if bs.len() > 0 {
        let front = bs.drop_last();
        lemma_unshared_bindings_value(defs, front, used, env, fuel, scope);
        let w = unshared_bindings(bs, used);
        assert(w.drop_last() =~= unshared_bindings(front, used));
        assert(w.last() == (bs.last().0, unshared(bs.last().1, used)));
        if let Some(a0) = bound_in(defs, front, env, fuel) {
            lemma_bound_in_keys(defs, front, env, fuel);
            assert forall|n: Seq<char>| #[trigger] (scope + bound_names(front)).contains(n) implies a0.contains_key(n) by {
                if scope.contains(n) {
                    assert(env.contains_key(n));
                }
            }
            lemma_unshared_value(defs, bs.last().1, used, a0, fuel, scope + bound_names(front));
        }
    }
}

/// Sharing never changes what an expression computes, when the shared
/// expression is well formed where it stands: every variable bound (in
/// `scope` or by an enclosing `let`), no name in scope rebound, literals in
/// range and every primitive binary. Where a hoisted tree reads a name that
/// a `let` inside its node binds, the shared expression is not closed, and
/// there the value can differ.
pub proof fn lemma_sharing_keeps_value(
    defs: Seq<DefTerm>,
    t: Term,
    st: FreshState,
    env: Map<Seq<char>, Value>,
    fuel: nat,
    scope: Seq<Seq<char>>,
)
    requires
        st.used.finite(),
        all_used(names_in(t), st.used),
        forall|n: Seq<char>| #[trigger] scope.contains(n) ==> env.contains_key(n),
        closed_in(shared(t, st).0, scope),
        unshadowed(shared(t, st).0, scope),
        literals_fit(shared(t, st).0),
        binary(shared(t, st).0),
    ensures
        evaluated(defs, shared(t, st).0, env, fuel) == evaluated(defs, t, env, fuel),
{
    lemma_sharing_undone(t, st);
    lemma_unshared_value(defs, shared(t, st).0, st.used, env, fuel, scope);
}

/// `t` reads only names of `scope` or of its own `let`s, rebinds none of
/// them, keeps its literals in range and applies every primitive to two
/// operands.
pub open spec fn well_formed_in(t: Term, scope: Seq<Seq<char>>) -> bool {
    &&& closed_in(t, scope)
    &&& unshadowed(t, scope)
    &&& literals_fit(t)
    &&& binary(t)
}

/// Every body is well formed in its definition's parameters.
pub open spec fn bodies_well_formed(defs: Seq<DefTerm>) -> bool {
    forall|i: int| 0 <= i < defs.len() ==> well_formed_in(#[trigger] defs[i].body, defs[i].params)
}

/// Definitions finished with sharing, where every finished body is well
/// formed in its parameters, compute on every call what the definitions
/// finished without it compute: called with all parameters bound, each body
/// gives the same result under any definitions.
pub(crate) proof fn lemma_finished_sharing_keeps_calls(
    defs: Seq<DefTerm>,
    propagate: bool,
    st: FreshState,
    x: Seq<DefTerm>,
)
    requires
        st.used.finite(),
        forall|i: int| 0 <= i < defs.len() ==> all_used(names_in(#[trigger] defs[i].body), st.used),
        bodies_well_formed(finish_defs(defs, propagate, true, st).0),
    ensures
        ({
            let (a, s1) = finish_defs(defs, propagate, true, st);
            let (b, _) = finish_defs(defs, propagate, false, st);
            &&& a.len() == defs.len()
            &&& b.len() == defs.len()
            &&& s1.used.finite()
            &&& st.used.subset_of(s1.used)
            &&& forall|i: int| 0 <= i < defs.len() ==> (#[trigger] a[i]).name == b[i].name && a[i].params == b[i].params
            &&& forall|i: int, env: Map<Seq<char>, Value>, fuel: nat|
                0 <= i < defs.len() && (forall|n: Seq<char>| #[trigger] a[i].params.contains(n) ==> env.contains_key(n))
                    ==> #[trigger] evaluated(x, a[i].body, env, fuel) == evaluated(x, b[i].body, env, fuel)
        }),
{
    lemma_finished_sharing_undone(defs, propagate, st);
    let (a, s1) = finish_defs(defs, propagate, true, st);
    let (b, _) = finish_defs(defs, propagate, false, st);
    assert forall|i: int, env: Map<Seq<char>, Value>, fuel: nat|
        0 <= i < defs.len() && (forall|n: Seq<char>| #[trigger] a[i].params.contains(n) ==> env.contains_key(n))
            implies #[trigger] evaluated(x, a[i].body, env, fuel) == evaluated(x, b[i].body, env, fuel) by {
        assert(well_formed_in(a[i].body, a[i].params));
        lemma_unshared_value(x, a[i].body, st.used, env, fuel, a[i].params);
    }
}

} // verus!
