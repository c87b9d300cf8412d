//! How lowering names its locals. Every local it introduces is numbered from
//! the running counter on, so every parameter and `let` binder of a lowered
//! program is a distinct local; and when no name written in the program has
//! the shape of a compiler local, a lowered `let` never mentions its own
//! binders in its values, and no helper mentions a name that another
//! definition binds.
use crate::ast::{AstDef, AstTerm};
use crate::ir::{
    bind_locals, bind_params, definition_parts, local_name, lowered, lowered_args, lowered_definitions,
    lowered_values, primitive_of, special_target, DefTerm, Term,
};
use crate::optimize::{helpers_of, is_inline_candidate, names_in, names_in_all, names_in_bindings, renamed_to, Renaming};
use crate::semantics::{
    binders_of, binders_of_all, binders_of_bindings, binds_no_helper_name, counter_after, helper_extra,
    lemma_bind_locals_names, lemma_bind_params_names, lemma_bound_names_index, lemma_helpers_members,
    lemma_local_name_injective, lemma_lowered_args_counts, lemma_lowered_counts, lemma_lowered_values_counts,
    output_of, parallel_safe, parallel_safe_all, parallel_safe_bindings, bound_names,
};
use crate::shape::has_call;
use vstd::prelude::*;

verus! {

/// `m` is not the name of any compiler local.
pub open spec fn plain_name(m: Seq<char>) -> bool {
    forall|k: nat, x: Seq<char>| m != #[trigger] local_name(k, x)
}

/// If `m` is a compiler local, its number lies from `lo` up to `hi`.
pub open spec fn numbered_in(m: Seq<char>, lo: nat, hi: nat) -> bool {
    forall|k: nat, x: Seq<char>| m == #[trigger] local_name(k, x) ==> lo <= k < hi
}

/// Every local among `names` is numbered from `lo` up to `hi`.
pub open spec fn locals_between(names: Seq<Seq<char>>, lo: nat, hi: nat) -> bool {
    forall|m: Seq<char>| #[trigger] names.contains(m) ==> numbered_in(m, lo, hi)
}

/// Every name of `names` is a compiler local numbered from `lo` up to `hi`.
pub open spec fn only_locals_between(names: Seq<Seq<char>>, lo: nat, hi: nat) -> bool {
    forall|m: Seq<char>| #[trigger] names.contains(m) ==> !plain_name(m) && numbered_in(m, lo, hi)
}

/// Every target of `scope` is numbered from `lo` up to `hi` if it is a local.
pub open spec fn scope_between(scope: Renaming, lo: nat, hi: nat) -> bool {
    forall|i: int| 0 <= i < scope.len() ==> numbered_in(#[trigger] scope[i].1, lo, hi)
}

/// No variable or function name written in `e` has the shape of a compiler
/// local.
pub open spec fn plain_term(e: AstTerm) -> bool
    decreases e,
{
    match e {
        AstTerm::Var(v) => plain_name(v),
        AstTerm::Lambda { body, .. } => plain_term(*body),
        AstTerm::Apply { function, args } => plain_term(*function) && plain_terms(args),
        AstTerm::If { condition, then_branch, else_branch } => plain_term(*condition) && plain_term(*then_branch)
            && plain_term(*else_branch),
        AstTerm::Let { bindings, body } => plain_values(bindings) && plain_term(*body),
        AstTerm::Cons(a, b) => plain_term(*a) && plain_term(*b),
        AstTerm::Car(v) | AstTerm::Cdr(v) | AstTerm::Null(v) => plain_term(*v),
        _ => true,
    }
}

pub open spec fn plain_terms(s: Seq<AstTerm>) -> bool
    decreases s,
{
    s.len() == 0 || (plain_terms(s.drop_last()) && plain_term(s.last()))
}

pub open spec fn plain_values(s: Seq<(Seq<char>, AstTerm)>) -> bool
    decreases s,
{
    s.len() == 0 || (plain_values(s.drop_last()) && plain_term(s.last().1))
}

/// No definition of `ds` writes a name with the shape of a compiler local.
pub open spec fn plain_definitions(ds: Seq<AstDef>) -> bool {
    forall|i: int| 0 <= i < ds.len() ==> plain_term(#[trigger] ds[i].value)
}

/// What a lowered term satisfies when its locals are numbered from `first`
/// (binders) and `lo` (any name) up to `hi`.
pub open spec fn scoped(t: Term, lo: nat, first: nat, hi: nat) -> bool {
    &&& locals_between(names_in(t), lo, hi)
    &&& only_locals_between(binders_of(t), first, hi)
    &&& parallel_safe(t)
}

proof fn lemma_local_numbered(k: nat, x: Seq<char>, lo: nat, hi: nat)
    requires
        lo <= k < hi,
    ensures
        numbered_in(local_name(k, x), lo, hi),
        !plain_name(local_name(k, x)),
{
    assert forall|j: nat, y: Seq<char>| local_name(k, x) == #[trigger] local_name(j, y) implies lo <= j < hi by {
        lemma_local_name_injective(k, x, j, y);
    }
}

proof fn lemma_scoped_wider(t: Term, lo: nat, first: nat, hi: nat, lo2: nat, first2: nat, hi2: nat)
    requires
        scoped(t, lo, first, hi),
        lo2 <= lo,
        first2 <= first,
        hi <= hi2,
    ensures
        scoped(t, lo2, first2, hi2),
{
}

proof fn lemma_special_targets_plain(name: Seq<char>)
    ensures
        special_target(name) matches Some((c, _)) ==> plain_name(c),
{
    reveal_strlit("schemeLocal");
    if let Some((c, _)) = special_target(name) {
        reveal_strlit("__scheme_map_empty");
        reveal_strlit("__scheme_map_get");
        reveal_strlit("__scheme_map_set");
        reveal_strlit("__scheme_sparse_frontier");
        reveal_strlit("__scheme_sparse_scatter");
        reveal_strlit("__scheme_sparse_square_sum");
        reveal_strlit("__scheme_sparse_chunk_tree");
        reveal_strlit("__scheme_sparse_parallel_chunks");
        assert(c[0] == '_');
        assert forall|k: nat, x: Seq<char>| c != #[trigger] local_name(k, x) by {
            assert(local_name(k, x)[0] == 's');
        }
    }
}

proof fn lemma_renamed_numbered(scope: Renaming, v: Seq<char>, lo: nat, hi: nat)
    requires
        scope_between(scope, lo, hi),
        plain_name(v),
    ensures
        numbered_in(renamed_to(scope, v), lo, hi),
    decreases scope.len(),
{
    if scope.len() > 0 {
        let last = scope.len() - 1;
        assert(scope[last] == scope.last());
        if scope.last().0 != v {
            assert forall|i: int| 0 <= i < scope.drop_last().len() implies numbered_in(
                #[trigger] scope.drop_last()[i].1,
                lo,
                hi,
            ) by {
                assert(scope.drop_last()[i] == scope[i]);
            }
            lemma_renamed_numbered(scope.drop_last(), v, lo, hi);
        }
    }
}

proof fn lemma_bind_locals_scope(values: Seq<(Seq<char>, Term)>, scope: Renaming, n: nat, lo: nat)
    requires
        scope_between(scope, lo, n),
        lo <= n,
    ensures
        scope_between(bind_locals(values, scope, n).1, lo, n + values.len()),
    decreases values.len(),
{
    if values.len() > 0 {
        lemma_bind_locals_scope(values.drop_last(), scope, n, lo);
        let (bs, sc, m) = bind_locals(values.drop_last(), scope, n);
        lemma_bind_locals_names(values.drop_last(), scope, n);
        let inner = bind_locals(values, scope, n).1;
        lemma_local_numbered(m, values.last().0, lo, n + values.len());
        assert forall|i: int| 0 <= i < inner.len() implies numbered_in(#[trigger] inner[i].1, lo, n + values.len()) by {
            if i < sc.len() {
                assert(inner[i] == sc[i]);
            }
        }
    }
}

proof fn lemma_bind_params_scope(params: Seq<Seq<char>>, scope: Renaming, n: nat, lo: nat)
    requires
        scope_between(scope, lo, n),
        lo <= n,
    ensures
        scope_between(bind_params(params, scope, n).1, lo, n + params.len()),
    decreases params.len(),
{
    if params.len() > 0 {
        lemma_bind_params_scope(params.drop_last(), scope, n, lo);
        let (locals, sc, m) = bind_params(params.drop_last(), scope, n);
        lemma_bind_params_names(params.drop_last(), scope, n);
        let inner = bind_params(params, scope, n).1;
        lemma_local_numbered(m, params.last(), lo, n + params.len());
        assert forall|i: int| 0 <= i < inner.len() implies numbered_in(#[trigger] inner[i].1, lo, n + params.len()) by {
            if i < sc.len() {
                assert(inner[i] == sc[i]);
            }
        }
    }
}

/// Facts about each element carry over to the whole list.
proof fn lemma_all_scoped(s: Seq<Term>, lo: nat, first: nat, hi: nat)
    requires
        forall|i: int| 0 <= i < s.len() ==> scoped(#[trigger] s[i], lo, first, hi),
    ensures
        locals_between(names_in_all(s), lo, hi),
        only_locals_between(binders_of_all(s), first, hi),
        parallel_safe_all(s),
    decreases s.len(),
{
    broadcast use vstd::seq_lib::lemma_seq_concat_contains_all_elements;

    if s.len() > 0 {
        assert forall|i: int| 0 <= i < s.drop_last().len() implies scoped(#[trigger] s.drop_last()[i], lo, first, hi) by {
            assert(s.drop_last()[i] == s[i]);
        }
        lemma_all_scoped(s.drop_last(), lo, first, hi);
        assert(s[s.len() - 1] == s.last());
    }
}

/// Bindings whose names are locals numbered from `mid` on, over values whose
/// names are numbered below `mid`: no value mentions a name bound before it.
proof fn lemma_bindings_scoped(
    bs: Seq<(Seq<char>, Term)>,
    xs: Seq<Seq<char>>,
    lo: nat,
    first: nat,
    mid: nat,
    hi: nat,
)
    requires
        xs.len() == bs.len(),
        lo <= first <= mid,
        mid + bs.len() <= hi,
        forall|i: int| 0 <= i < bs.len() ==> #[trigger] bs[i].0 == local_name((mid + i) as nat, xs[i]),
        forall|i: int| 0 <= i < bs.len() ==> scoped(#[trigger] bs[i].1, lo, first, mid),
    ensures
        locals_between(names_in_bindings(bs), lo, hi),
        only_locals_between(binders_of_bindings(bs), first, hi),
        parallel_safe_bindings(bs),
    decreases bs.len(),
{
    broadcast use vstd::seq_lib::lemma_seq_concat_contains_all_elements;

    if bs.len() > 0 {
        let front = bs.drop_last();
        let last = bs.len() - 1;
        assert(bs[last] == bs.last());
        assert forall|i: int| 0 <= i < front.len() implies #[trigger] front[i].0 == local_name(
            (mid + i) as nat,
            xs.drop_last()[i],
        ) && scoped(front[i].1, lo, first, mid) by {
            assert(front[i] == bs[i]);
        }
        lemma_bindings_scoped(front, xs.drop_last(), lo, first, mid, hi);
        lemma_local_numbered((mid + last) as nat, xs[last], lo, hi);
        lemma_local_numbered((mid + last) as nat, xs[last], first, hi);
        lemma_scoped_wider(bs.last().1, lo, first, mid, lo, first, hi);
        lemma_bound_names_index(front);
        assert forall|n: Seq<char>| #[trigger] bound_names(front).contains(n) implies !names_in(
            bs.last().1,
        ).contains(n) by {
            let j = choose|j: int| 0 <= j < bound_names(front).len() && bound_names(front)[j] == n;
            assert(front[j] == bs[j]);
            assert(n == local_name((mid + j) as nat, xs[j]));
            if names_in(bs.last().1).contains(n) {
                assert(numbered_in(n, lo, mid));
                assert(false);
            }
        }
        assert(numbered_in(bs.last().0, lo, hi));
        assert(!plain_name(bs.last().0) && numbered_in(bs.last().0, first, hi));
    }
}

/// Lowering under a scope whose locals are numbered from `lo` names only
/// locals numbered from `lo` up to the counter after, binds only fresh
/// locals, and never lets a `let` value see its own binders.
pub proof fn lemma_lowered_scoped(e: AstTerm, scope: Renaming, n: nat, lo: nat)
    requires
        lowered(e, scope, n) is Ok,
        plain_term(e),
        lo <= n,
        scope_between(scope, lo, n),
    ensures
        scoped(output_of(lowered(e, scope, n)), lo, n, counter_after(lowered(e, scope, n))),
    decreases e,
{
    broadcast use vstd::seq_lib::lemma_seq_concat_contains_all_elements;

    lemma_lowered_counts(e, scope, n);
    match e {
        AstTerm::Var(v) => {
            lemma_renamed_numbered(scope, v, lo, n);
            let r = renamed_to(scope, v);
            assert(names_in(Term::Var(r)) == seq![r]);
            assert forall|m: Seq<char>| #[trigger] seq![r].contains(m) implies numbered_in(m, lo, n) by {
                let i = choose|i: int| 0 <= i < seq![r].len() && seq![r][i] == m;
                assert(seq![r][i] == r);
            }
            assert(locals_between(names_in(Term::Var(r)), lo, n));
            assert(output_of(lowered(e, scope, n)) == Term::Var(r));
            assert(counter_after(lowered(e, scope, n)) == n);
            assert(binders_of(Term::Var(r)) =~= Seq::<Seq<char>>::empty());
            assert(only_locals_between(binders_of(Term::Var(r)), n, n));
            assert(parallel_safe(Term::Var(r)));
            assert(scoped(Term::Var(r), lo, n, n));
        },
        AstTerm::If { condition, then_branch, else_branch } => {
            let n1 = counter_after(lowered(*condition, scope, n));
            let n2 = counter_after(lowered(*then_branch, scope, n1));
            let n3 = counter_after(lowered(*else_branch, scope, n2));
            lemma_lowered_counts(*condition, scope, n);
            lemma_lowered_counts(*then_branch, scope, n1);
            lemma_lowered_counts(*else_branch, scope, n2);
            lemma_lowered_scoped(*condition, scope, n, lo);
            lemma_lowered_scoped(*then_branch, scope, n1, lo);
            lemma_lowered_scoped(*else_branch, scope, n2, lo);
            lemma_scoped_wider(output_of(lowered(*condition, scope, n)), lo, n, n1, lo, n, n3);
            lemma_scoped_wider(output_of(lowered(*then_branch, scope, n1)), lo, n1, n2, lo, n, n3);
            lemma_scoped_wider(output_of(lowered(*else_branch, scope, n2)), lo, n2, n3, lo, n, n3);
        },
        AstTerm::Let { bindings, body } => {
            let values = output_of(lowered_values(bindings, scope, n));
            let n1 = counter_after(lowered_values(bindings, scope, n));
            let (bs, inner, n2) = bind_locals(values, scope, n1);
            let n3 = counter_after(lowered(*body, inner, n2));
            lemma_lowered_values_counts(bindings, scope, n);
            lemma_bind_locals_names(values, scope, n1);
            lemma_lowered_counts(*body, inner, n2);
            lemma_lowered_values_scoped(bindings, scope, n, lo);
            let xs = Seq::new(values.len(), |i: int| values[i].0);
            assert forall|i: int| 0 <= i < bs.len() implies #[trigger] bs[i].0 == local_name((n1 + i) as nat, xs[i])
                && scoped(bs[i].1, lo, n, n1) by {
                assert(bs[i] == (local_name((n1 + i) as nat, values[i].0), values[i].1));
            }
            lemma_bindings_scoped(bs, xs, lo, n, n1, n3);
            lemma_bind_locals_scope(values, scope, n1, lo);
            lemma_scope_wider(scope, lo, n, n1);
            lemma_lowered_scoped(*body, inner, n2, lo);
            lemma_scoped_wider(output_of(lowered(*body, inner, n2)), lo, n2, n3, lo, n, n3);
        },
        AstTerm::Cons(a, b) => {
            let n1 = counter_after(lowered(*a, scope, n));
            let n2 = counter_after(lowered(*b, scope, n1));
            lemma_lowered_counts(*a, scope, n);
            lemma_lowered_counts(*b, scope, n1);
            lemma_lowered_scoped(*a, scope, n, lo);
            lemma_scope_wider(scope, lo, n, n1);
            lemma_lowered_scoped(*b, scope, n1, lo);
            lemma_scoped_wider(output_of(lowered(*a, scope, n)), lo, n, n1, lo, n, n2);
            lemma_scoped_wider(output_of(lowered(*b, scope, n1)), lo, n1, n2, lo, n, n2);
        },
        AstTerm::Car(v) => lemma_lowered_scoped(*v, scope, n, lo),
        AstTerm::Cdr(v) => lemma_lowered_scoped(*v, scope, n, lo),
        AstTerm::Null(v) => lemma_lowered_scoped(*v, scope, n, lo),
        AstTerm::Apply { function, args } => {
            let a = output_of(lowered_args(args, scope, n));
            let n1 = counter_after(lowered_args(args, scope, n));
            lemma_lowered_args_counts(args, scope, n);
            lemma_lowered_args_scoped(args, scope, n, lo);
            match *function {
                AstTerm::Lambda { params, body } => {
                    assert(plain_term(AstTerm::Lambda { params, body }));
                    let (locals, inner, n2) = bind_params(params, scope, n1);
                    lemma_bind_params_names(params, scope, n1);
                    lemma_lowered_counts(*body, inner, n2);
                    let n3 = counter_after(lowered(*body, inner, n2));
                    let bs = Seq::new(locals.len(), |i: int| (locals[i], a[i]));
                    assert forall|i: int| 0 <= i < bs.len() implies #[trigger] bs[i].0 == local_name(
                        (n1 + i) as nat,
                        params[i],
                    ) && scoped(bs[i].1, lo, n, n1) by {
                        assert(locals[i] == local_name((n1 + i) as nat, params[i]));
                    }
                    lemma_bindings_scoped(bs, params, lo, n, n1, n3);
                    lemma_scope_wider(scope, lo, n, n1);
                    lemma_bind_params_scope(params, scope, n1, lo);
                    lemma_lowered_scoped(*body, inner, n2, lo);
                    lemma_scoped_wider(output_of(lowered(*body, inner, n2)), lo, n2, n3, lo, n, n3);
                },
                AstTerm::Var(name) => {
                    lemma_all_scoped(a, lo, n, n1);
                    lemma_special_targets_plain(name);
                    assert(plain_term(AstTerm::Var(name)));
                    let out = output_of(lowered(e, scope, n));
                    if primitive_of(name) is None {
                        let c = match special_target(name) {
                            Some((c, _)) => c,
                            None => name,
                        };
                        assert(out == Term::Call { callee: c, args: a });
                        assert forall|m: Seq<char>| #[trigger] names_in(out).contains(m) implies numbered_in(
                            m,
                            lo,
                            n1,
                        ) by {
                            if m != c {
                                assert(names_in_all(a).contains(m));
                            }
                        }
                    }
                },
                _ => {},
            }
        },
        _ => {
            assert(names_in(output_of(lowered(e, scope, n))) =~= Seq::<Seq<char>>::empty());
            assert(binders_of(output_of(lowered(e, scope, n))) =~= Seq::<Seq<char>>::empty());
        },
    }
}

proof fn lemma_scope_wider(scope: Renaming, lo: nat, hi: nat, hi2: nat)
    requires
        scope_between(scope, lo, hi),
        hi <= hi2,
    ensures
        scope_between(scope, lo, hi2),
{
    assert forall|i: int| 0 <= i < scope.len() implies numbered_in(#[trigger] scope[i].1, lo, hi2) by {
        assert(numbered_in(scope[i].1, lo, hi));
    }
}

proof fn lemma_lowered_args_scoped(s: Seq<AstTerm>, scope: Renaming, n: nat, lo: nat)
    requires
        lowered_args(s, scope, n) is Ok,
        plain_terms(s),
        lo <= n,
        scope_between(scope, lo, n),
    ensures
        forall|i: int|
            0 <= i < output_of(lowered_args(s, scope, n)).len() ==> scoped(
                #[trigger] output_of(lowered_args(s, scope, n))[i],
                lo,
                n,
                counter_after(lowered_args(s, scope, n)),
            ),
        output_of(lowered_args(s, scope, n)).len() == s.len(),
    decreases s,
{
    if s.len() > 0 {
        let front = output_of(lowered_args(s.drop_last(), scope, n));
        let n1 = counter_after(lowered_args(s.drop_last(), scope, n));
        lemma_lowered_args_counts(s.drop_last(), scope, n);
        lemma_lowered_counts(s.last(), scope, n1);
        lemma_lowered_args_scoped(s.drop_last(), scope, n, lo);
        lemma_scope_wider(scope, lo, n, n1);
        lemma_lowered_scoped(s.last(), scope, n1, lo);
        let n2 = counter_after(lowered_args(s, scope, n));
        let r = output_of(lowered_args(s, scope, n));
        assert forall|i: int| 0 <= i < r.len() implies scoped(#[trigger] r[i], lo, n, n2) by {
            if i < r.len() - 1 {
                assert(r[i] == front[i]);
                lemma_scoped_wider(front[i], lo, n, n1, lo, n, n2);
            } else {
                lemma_scoped_wider(r[i], lo, n1, n2, lo, n, n2);
            }
        }
    }
}

proof fn lemma_lowered_values_scoped(s: Seq<(Seq<char>, AstTerm)>, scope: Renaming, n: nat, lo: nat)
    requires
        lowered_values(s, scope, n) is Ok,
        plain_values(s),
        lo <= n,
        scope_between(scope, lo, n),
    ensures
        forall|i: int|
            0 <= i < output_of(lowered_values(s, scope, n)).len() ==> scoped(
                #[trigger] output_of(lowered_values(s, scope, n))[i].1,
                lo,
                n,
                counter_after(lowered_values(s, scope, n)),
            ),
    decreases s,
{
    if s.len() > 0 {
        let front = output_of(lowered_values(s.drop_last(), scope, n));
        let n1 = counter_after(lowered_values(s.drop_last(), scope, n));
        lemma_lowered_values_counts(s.drop_last(), scope, n);
        lemma_lowered_counts(s.last().1, scope, n1);
        lemma_lowered_values_scoped(s.drop_last(), scope, n, lo);
        lemma_scope_wider(scope, lo, n, n1);
        lemma_lowered_scoped(s.last().1, scope, n1, lo);
        let n2 = counter_after(lowered_values(s, scope, n));
        let r = output_of(lowered_values(s, scope, n));
        assert forall|i: int| 0 <= i < r.len() implies scoped(#[trigger] r[i].1, lo, n, n2) by {
            if i < r.len() - 1 {
                assert(r[i] == front[i]);
                lemma_scoped_wider(front[i].1, lo, n, n1, lo, n, n2);
            } else {
                lemma_scoped_wider(r[i].1, lo, n1, n2, lo, n, n2);
            }
        }
    }
}

/// Definitions lowered from counter `n`: every body names only locals
/// numbered from `n` up to the counter after, binds only such locals and
/// keeps every `let` value clear of its own binders, and no body mentions a
/// name another body binds.
proof fn lemma_lowered_definitions_scoped(ds: Seq<AstDef>, n: nat)
    requires
        plain_definitions(ds),
    ensures
        lowered_definitions(ds, n) matches Ok((defs, m)) ==> {
            &&& n <= m
            &&& defs.len() == ds.len()
            &&& forall|i: int| 0 <= i < defs.len() ==> scoped(#[trigger] defs[i].body, n, n, m)
            &&& forall|i: int, j: int, b: Seq<char>|
                #![trigger binders_of(defs[j].body).contains(b), names_in(defs[i].body).contains(b)]
                0 <= i < defs.len() && 0 <= j < defs.len() && i != j && binders_of(defs[j].body).contains(b)
                    ==> !names_in(defs[i].body).contains(b)
        },
    decreases ds.len(),
{
    if ds.len() > 0 {
        assert forall|i: int| 0 <= i < ds.drop_last().len() implies plain_term(#[trigger] ds.drop_last()[i].value) by {
            assert(ds.drop_last()[i] == ds[i]);
        }
        lemma_lowered_definitions_scoped(ds.drop_last(), n);
        if let Ok((defs, m)) = lowered_definitions(ds, n) {
            let (front, n1) = lowered_definitions(ds.drop_last(), n)->Ok_0;
            let last = ds.len() - 1;
            assert(ds[last] == ds.last());
            assert(plain_term(ds.last().value));
            let (params, body) = definition_parts(ds.last().value);
            assert(plain_term(body));
            let (locals, scope, n2) = bind_params(params, Seq::empty(), n1);
            lemma_bind_params_names(params, Seq::empty(), n1);
            lemma_bind_params_scope(params, Seq::empty(), n1, n1);
            lemma_lowered_counts(body, scope, n2);
            lemma_lowered_scoped(body, scope, n2, n1);
            let b = output_of(lowered(body, scope, n2));
            let d = crate::ir::lowered_definition(ds.last(), n1)->Ok_0.0;
            assert(defs == front.push(d));
            assert(defs[last] == d);
            assert(d.body == b);
            assert(m == counter_after(lowered(body, scope, n2)));
            lemma_scoped_wider(b, n1, n2, m, n, n, m);
            assert forall|i: int| 0 <= i < defs.len() implies scoped(#[trigger] defs[i].body, n, n, m) by {
                if i < last {
                    assert(front.push(d)[i] == front[i]);
                    lemma_scoped_wider(front[i].body, n, n, n1, n, n, m);
                }
            }
            assert forall|i: int, j: int, x: Seq<char>|
                #![trigger binders_of(defs[j].body).contains(x), names_in(defs[i].body).contains(x)]
                0 <= i < defs.len() && 0 <= j < defs.len() && i != j && binders_of(defs[j].body).contains(x)
                    implies !names_in(defs[i].body).contains(x) by {
                if i < last && j < last {
                    assert(front.push(d)[i] == front[i] && front.push(d)[j] == front[j]);
                } else if j == last {
                    assert(front.push(d)[i] == front[i]);
                    assert(!plain_name(x) && numbered_in(x, n2, m));
                    let (k, y) = choose|k: nat, y: Seq<char>| x == local_name(k, y);
                    if names_in(defs[i].body).contains(x) {
                        assert(numbered_in(x, n, n1));
                        assert(false);
                    }
                } else {
                    assert(front.push(d)[j] == front[j]);
                    assert(binders_of(front[j].body).contains(x));
                    assert(!plain_name(x) && numbered_in(x, n, n1));
                    let (k, y) = choose|k: nat, y: Seq<char>| x == local_name(k, y);
                    if names_in(defs[i].body).contains(x) {
                        assert(numbered_in(x, n1, m));
                        assert(false);
                    }
                }
            }
        }
    }
}

/// When no definition writes a name with the shape of a compiler local,
/// lowering gives bodies in which no `let` value mentions a binder of its
/// own `let`, and in which a body that makes calls binds no name that a
/// helper mentions beyond its parameters.
pub proof fn lemma_lowered_definitions_hygienic(ds: Seq<AstDef>, n: nat)
    requires
        plain_definitions(ds),
    ensures
        lowered_definitions(ds, n) matches Ok((defs, _)) ==> {
            &&& forall|i: int| 0 <= i < defs.len() ==> parallel_safe(#[trigger] defs[i].body)
            &&& forall|i: int|
                0 <= i < defs.len() && has_call(defs[i].body) ==> binds_no_helper_name(
                    helpers_of(defs),
                    binders_of(#[trigger] defs[i].body),
                )
        },
{
    lemma_lowered_definitions_scoped(ds, n);
    if let Ok((defs, m)) = lowered_definitions(ds, n) {
        let helpers = helpers_of(defs);
        lemma_helpers_members(defs);
        assert forall|j: int| 0 <= j < defs.len() && has_call(defs[j].body) implies binds_no_helper_name(
            helpers,
            binders_of(#[trigger] defs[j].body),
        ) by {
            assert forall|x: Seq<char>| #[trigger] binders_of(defs[j].body).contains(x) implies !helper_extra(
                helpers,
                x,
            ) by {
                if helper_extra(helpers, x) {
                    let t = choose|t: int|
                        0 <= t < helpers.len() && names_in(helpers[t].body).contains(x) && !helpers[t].params.contains(x);
                    assert(is_inline_candidate(helpers[t]));
                    let k = choose|k: int| 0 <= k < defs.len() && defs[k] == helpers[t];
                    assert(k != j);
                    assert(names_in(defs[k].body).contains(x));
                    assert(false);
                }
            }
        }
        assert forall|i: int| 0 <= i < defs.len() implies parallel_safe(#[trigger] defs[i].body) by {
            assert(scoped(defs[i].body, n, n, m));
        }
    }
}

// ---------------------------------------------------------------------------
// Every binder a fresh local
// ---------------------------------------------------------------------------

/// No name of `names` repeats, and each is a compiler local whose number `w`
/// admits.
pub open spec fn fresh_locals(names: Seq<Seq<char>>, w: spec_fn(nat) -> bool) -> bool {
    &&& names.no_duplicates()
    &&& forall|m: Seq<char>| #[trigger] names.contains(m) ==> !plain_name(m) && forall|k: nat, x: Seq<char>|
        m == #[trigger] local_name(k, x) ==> w(k)
}

proof fn lemma_fresh_locals_concat(
    a: Seq<Seq<char>>,
    b: Seq<Seq<char>>,
    wa: spec_fn(nat) -> bool,
    wb: spec_fn(nat) -> bool,
    w: spec_fn(nat) -> bool,
)
    requires
        fresh_locals(a, wa),
        fresh_locals(b, wb),
        forall|k: nat| !(#[trigger] wa(k) && wb(k)),
        forall|k: nat| #![trigger wa(k)] #![trigger wb(k)] wa(k) || wb(k) ==> w(k),
    ensures
        fresh_locals(a + b, w),
{
    broadcast use vstd::seq_lib::lemma_seq_concat_contains_all_elements;

    let ab = a + b;
    assert forall|i: int, j: int| 0 <= i < ab.len() && 0 <= j < ab.len() && i != j implies ab[i] != ab[j] by {
        if i < a.len() && j < a.len() {
            assert(ab[i] == a[i] && ab[j] == a[j]);
        } else if i >= a.len() && j >= a.len() {
            assert(ab[i] == b[i - a.len()] && ab[j] == b[j - a.len()]);
        } else {
            let (p, q) = if i < a.len() {
                (i, j - a.len())
            } else {
                (j, i - a.len())
            };
            assert(ab[i] == a[p] || ab[i] == b[q]);
            if a[p] == b[q] {
                assert(a.contains(a[p]) && b.contains(b[q]));
                let (k, x) = choose|k: nat, x: Seq<char>| a[p] == local_name(k, x);
                assert(wa(k) && wb(k));
            }
            if i < a.len() {
                assert(ab[i] == a[p] && ab[j] == b[q]);
            } else {
                assert(ab[j] == a[p] && ab[i] == b[q]);
            }
        }
    }
}

proof fn lemma_fresh_local_one(k: nat, x: Seq<char>, w: spec_fn(nat) -> bool)
    requires
        w(k),
    ensures
        fresh_locals(seq![local_name(k, x)], w),
{
    let m = local_name(k, x);
    assert forall|q: Seq<char>| #[trigger] seq![m].contains(q) implies !plain_name(q) && forall|j: nat, y: Seq<char>|
        q == #[trigger] local_name(j, y) ==> w(j) by {
        let i = choose|i: int| 0 <= i < seq![m].len() && seq![m][i] == q;
        assert(seq![m][i] == m);
        assert forall|j: nat, y: Seq<char>| q == #[trigger] local_name(j, y) implies w(j) by {
            lemma_local_name_injective(k, x, j, y);
        }
    }
}

/// The binders of a lowered term are distinct locals numbered from the
/// counter before lowering up to the counter after.
proof fn lemma_lowered_binders(e: AstTerm, scope: Renaming, n: nat)
    requires
        lowered(e, scope, n) is Ok,
    ensures
        fresh_locals(
            binders_of(output_of(lowered(e, scope, n))),
            |k: nat| n <= k && k < counter_after(lowered(e, scope, n)),
        ),
    decreases e,
{
    broadcast use vstd::seq_lib::lemma_seq_concat_contains_all_elements;

    lemma_lowered_counts(e, scope, n);
    let m = counter_after(lowered(e, scope, n));
    let w = |k: nat| n <= k && k < m;
    match e {
        AstTerm::If { condition, then_branch, else_branch } => {
            let n1 = counter_after(lowered(*condition, scope, n));
            let n2 = counter_after(lowered(*then_branch, scope, n1));
            lemma_lowered_counts(*condition, scope, n);
            lemma_lowered_counts(*then_branch, scope, n1);
            lemma_lowered_counts(*else_branch, scope, n2);
            lemma_lowered_binders(*condition, scope, n);
            lemma_lowered_binders(*then_branch, scope, n1);
            lemma_lowered_binders(*else_branch, scope, n2);
            let a = binders_of(output_of(lowered(*condition, scope, n)));
            let b = binders_of(output_of(lowered(*then_branch, scope, n1)));
            let c = binders_of(output_of(lowered(*else_branch, scope, n2)));
            lemma_fresh_locals_concat(a, b, |k: nat| n <= k && k < n1, |k: nat| n1 <= k && k < n2, |k: nat| n <= k && k < n2);
            lemma_fresh_locals_concat(a + b, c, |k: nat| n <= k && k < n2, |k: nat| n2 <= k && k < m, w);
        },
        AstTerm::Let { bindings, body } => {
            let values = output_of(lowered_values(bindings, scope, n));
            let n1 = counter_after(lowered_values(bindings, scope, n));
            let (bs, inner, n2) = bind_locals(values, scope, n1);
            lemma_lowered_values_counts(bindings, scope, n);
            lemma_bind_locals_names(values, scope, n1);
            lemma_lowered_counts(*body, inner, n2);
            lemma_values_binders(bindings, scope, n, n1);
            lemma_lowered_binders(*body, inner, n2);
            lemma_fresh_locals_concat(
                binders_of_bindings(bs),
                binders_of(output_of(lowered(*body, inner, n2))),
                |k: nat| (n <= k && k < n1) || (n1 <= k && k < n1 + bindings.len()),
                |k: nat| n2 <= k && k < m,
                w,
            );
        },
        AstTerm::Cons(a, b) => {
            let n1 = counter_after(lowered(*a, scope, n));
            lemma_lowered_counts(*a, scope, n);
            lemma_lowered_counts(*b, scope, n1);
            lemma_lowered_binders(*a, scope, n);
            lemma_lowered_binders(*b, scope, n1);
            lemma_fresh_locals_concat(
                binders_of(output_of(lowered(*a, scope, n))),
                binders_of(output_of(lowered(*b, scope, n1))),
                |k: nat| n <= k && k < n1,
                |k: nat| n1 <= k && k < m,
                w,
            );
        },
        AstTerm::Car(v) => lemma_lowered_binders(*v, scope, n),
        AstTerm::Cdr(v) => lemma_lowered_binders(*v, scope, n),
        AstTerm::Null(v) => lemma_lowered_binders(*v, scope, n),
        AstTerm::Apply { function, args } => {
            let a = output_of(lowered_args(args, scope, n));
            let n1 = counter_after(lowered_args(args, scope, n));
            lemma_lowered_args_counts(args, scope, n);
            match *function {
                AstTerm::Lambda { params, body } => {
                    let (locals, inner, n2) = bind_params(params, scope, n1);
                    lemma_bind_params_names(params, scope, n1);
                    lemma_lowered_counts(*body, inner, n2);
                    let values = Seq::new(params.len(), |i: int| (params[i], a[i]));
                    let bs = Seq::new(locals.len(), |i: int| (locals[i], a[i]));
                    lemma_bind_locals_names(values, scope, n1);
                    assert(bind_locals(values, scope, n1).0 =~= bs);
                    lemma_args_binders_all(args, scope, n);
                    lemma_args_binders(args, scope, n, n1, params);
                    assert(bs =~= Seq::new(
                        args.len(),
                        |i: int| (local_name((n1 + i) as nat, params[i]), a[i]),
                    ));
                    lemma_lowered_binders(*body, inner, n2);
                    lemma_fresh_locals_concat(
                        binders_of_bindings(bs),
                        binders_of(output_of(lowered(*body, inner, n2))),
                        |k: nat| (n <= k && k < n1) || (n1 <= k && k < n1 + params.len()),
                        |k: nat| n2 <= k && k < m,
                        w,
                    );
                },
                AstTerm::Var(name) => {
                    lemma_args_binders_all(args, scope, n);
                },
                _ => {},
            }
        },
        _ => {
            assert(binders_of(output_of(lowered(e, scope, n))) =~= Seq::<Seq<char>>::empty());
        },
    }
}

/// The binders of lowered `let` values, with the values bound to locals
/// numbered from `base` on.
proof fn lemma_values_binders(s: Seq<(Seq<char>, AstTerm)>, scope: Renaming, n: nat, base: nat)
    requires
        lowered_values(s, scope, n) is Ok,
        counter_after(lowered_values(s, scope, n)) <= base,
    ensures
        fresh_locals(
            binders_of_bindings(bind_locals(output_of(lowered_values(s, scope, n)), scope, base).0),
            |k: nat| (n <= k && k < counter_after(lowered_values(s, scope, n))) || (base <= k && k < base + s.len()),
        ),
        output_of(lowered_values(s, scope, n)).len() == s.len(),
    decreases s,
{
    broadcast use vstd::seq_lib::lemma_seq_concat_contains_all_elements;

    lemma_lowered_values_counts(s, scope, n);
    if s.len() == 0 {
        assert(binders_of_bindings(Seq::<(Seq<char>, Term)>::empty()) =~= Seq::<Seq<char>>::empty());
    } else {
        let values = output_of(lowered_values(s, scope, n));
        let front = output_of(lowered_values(s.drop_last(), scope, n));
        let c1 = counter_after(lowered_values(s.drop_last(), scope, n));
        let c2 = counter_after(lowered_values(s, scope, n));
        lemma_lowered_values_counts(s.drop_last(), scope, n);
        lemma_lowered_counts(s.last().1, scope, c1);
        lemma_values_binders(s.drop_last(), scope, n, base);
        lemma_lowered_binders(s.last().1, scope, c1);
        assert(values.drop_last() =~= front);
        let bs = bind_locals(values, scope, base).0;
        let bs0 = bind_locals(front, scope, base).0;
        lemma_bind_locals_names(front, scope, base);
        let last = (s.len() - 1) as nat;
        let x = local_name(base + last, values.last().0);
        assert(bs == bs0.push((x, values.last().1)));
        assert(bs.drop_last() =~= bs0);
        let v = values.last().1;
        assert(binders_of_bindings(bs) == binders_of_bindings(bs0) + seq![x] + binders_of(v));
        let w0 = |k: nat| (n <= k && k < c1) || (base <= k && k < base + last);
        let w1 = |k: nat| (n <= k && k < c1) || (base <= k && k < base + last + 1);
        lemma_fresh_local_one(base + last, values.last().0, |k: nat| k == base + last);
        lemma_fresh_locals_concat(binders_of_bindings(bs0), seq![x], w0, |k: nat| k == base + last, w1);
        lemma_fresh_locals_concat(
            binders_of_bindings(bs0) + seq![x],
            binders_of(v),
            w1,
            |k: nat| c1 <= k && k < c2,
            |k: nat| (n <= k && k < c2) || (base <= k && k < base + s.len()),
        );
    }
}

/// The same for the arguments of an immediately applied lambda, bound to
/// locals numbered from `base` on under the names `xs`.
proof fn lemma_args_binders(s: Seq<AstTerm>, scope: Renaming, n: nat, base: nat, xs: Seq<Seq<char>>)
    requires
        lowered_args(s, scope, n) is Ok,
        counter_after(lowered_args(s, scope, n)) <= base,
        xs.len() == s.len(),
    ensures
        fresh_locals(
            binders_of_bindings(
                Seq::new(
                    s.len(),
                    |i: int| (local_name((base + i) as nat, xs[i]), output_of(lowered_args(s, scope, n))[i]),
                ),
            ),
            |k: nat| (n <= k && k < counter_after(lowered_args(s, scope, n))) || (base <= k && k < base + s.len()),
        ),
    decreases s,
{
    broadcast use vstd::seq_lib::lemma_seq_concat_contains_all_elements;

    lemma_lowered_args_counts(s, scope, n);
    lemma_args_len(s, scope, n);
    let out = output_of(lowered_args(s, scope, n));
    let bs = Seq::new(s.len(), |i: int| (local_name((base + i) as nat, xs[i]), out[i]));
    if s.len() == 0 {
        assert(binders_of_bindings(bs) =~= Seq::<Seq<char>>::empty());
    } else {
        let front = output_of(lowered_args(s.drop_last(), scope, n));
        let c1 = counter_after(lowered_args(s.drop_last(), scope, n));
        let c2 = counter_after(lowered_args(s, scope, n));
        lemma_lowered_args_counts(s.drop_last(), scope, n);
        lemma_lowered_counts(s.last(), scope, c1);
        lemma_args_binders(s.drop_last(), scope, n, base, xs.drop_last());
        lemma_args_len(s.drop_last(), scope, n);
        lemma_lowered_binders(s.last(), scope, c1);
        assert(out.drop_last() =~= front);
        let bs0 = Seq::new(
            s.drop_last().len(),
            |i: int| (local_name((base + i) as nat, xs.drop_last()[i]), front[i]),
        );
        assert(bs.drop_last() =~= bs0);
        let last = (s.len() - 1) as nat;
        let x = local_name(base + last, xs[last as int]);
        assert(bs.last() == (x, out.last()));
        let v = out.last();
        assert(binders_of_bindings(bs) == binders_of_bindings(bs0) + seq![x] + binders_of(v));
        let w0 = |k: nat| (n <= k && k < c1) || (base <= k && k < base + last);
        let w1 = |k: nat| (n <= k && k < c1) || (base <= k && k < base + last + 1);
        lemma_fresh_local_one(base + last, xs[last as int], |k: nat| k == base + last);
        lemma_fresh_locals_concat(binders_of_bindings(bs0), seq![x], w0, |k: nat| k == base + last, w1);
        lemma_fresh_locals_concat(
            binders_of_bindings(bs0) + seq![x],
            binders_of(v),
            w1,
            |k: nat| c1 <= k && k < c2,
            |k: nat| (n <= k && k < c2) || (base <= k && k < base + s.len()),
        );
    }
}

proof fn lemma_args_len(s: Seq<AstTerm>, scope: Renaming, n: nat)
    requires
        lowered_args(s, scope, n) is Ok,
    ensures
        output_of(lowered_args(s, scope, n)).len() == s.len(),
    decreases s,
{
    if s.len() > 0 {
        lemma_args_len(s.drop_last(), scope, n);
    }
}

/// The binders of lowered arguments, all together.
proof fn lemma_args_binders_all(s: Seq<AstTerm>, scope: Renaming, n: nat)
    requires
        lowered_args(s, scope, n) is Ok,
    ensures
        fresh_locals(
            binders_of_all(output_of(lowered_args(s, scope, n))),
            |k: nat| n <= k && k < counter_after(lowered_args(s, scope, n)),
        ),
        output_of(lowered_args(s, scope, n)).len() == s.len(),
    decreases s,
{
    lemma_lowered_args_counts(s, scope, n);
    let out = output_of(lowered_args(s, scope, n));
    if s.len() == 0 {
        assert(binders_of_all(out) =~= Seq::<Seq<char>>::empty());
    } else {
        let front = output_of(lowered_args(s.drop_last(), scope, n));
        let c1 = counter_after(lowered_args(s.drop_last(), scope, n));
        let c2 = counter_after(lowered_args(s, scope, n));
        lemma_lowered_args_counts(s.drop_last(), scope, n);
        lemma_lowered_counts(s.last(), scope, c1);
        lemma_args_binders_all(s.drop_last(), scope, n);
        lemma_lowered_binders(s.last(), scope, c1);
        assert(out.drop_last() =~= front);
        assert(binders_of_all(out) == binders_of_all(front) + binders_of(out.last()));
        lemma_fresh_locals_concat(
            binders_of_all(front),
            binders_of(out.last()),
            |k: nat| n <= k && k < c1,
            |k: nat| c1 <= k && k < c2,
            |k: nat| n <= k && k < c2,
        );
    }
}

proof fn lemma_params_fresh(params: Seq<Seq<char>>, scope: Renaming, n: nat)
    ensures
        fresh_locals(bind_params(params, scope, n).0, |k: nat| n <= k && k < n + params.len()),
    decreases params.len(),
{
    lemma_bind_params_names(params, scope, n);
    if params.len() == 0 {
        assert(bind_params(params, scope, n).0 =~= Seq::<Seq<char>>::empty());
    } else {
        lemma_params_fresh(params.drop_last(), scope, n);
        let (locals, sc, m) = bind_params(params.drop_last(), scope, n);
        lemma_bind_params_names(params.drop_last(), scope, n);
        let x = local_name(m, params.last());
        assert(bind_params(params, scope, n).0 == locals + seq![x]);
        lemma_fresh_local_one(m, params.last(), |k: nat| k == m);
        lemma_fresh_locals_concat(
            locals,
            seq![x],
            |k: nat| n <= k && k < n + params.drop_last().len(),
            |k: nat| k == m,
            |k: nat| n <= k && k < n + params.len(),
        );
    }
}

/// Every name a lowered program binds, definition by definition in order:
/// its parameters, then the binders of its body.
pub open spec fn program_binders(defs: Seq<DefTerm>) -> Seq<Seq<char>>
    decreases defs.len(),
{
    if defs.len() == 0 {
        Seq::empty()
    } else {
        program_binders(defs.drop_last()) + defs.last().params + binders_of(defs.last().body)
    }
}

/// Lowering binds every parameter and every `let` name of the program to a
/// distinct compiler local, numbered from the starting counter up to the
/// counter after.
pub proof fn lemma_lowered_binders_distinct(ds: Seq<AstDef>, n: nat)
    ensures
        lowered_definitions(ds, n) matches Ok((defs, m)) ==> n <= m && fresh_locals(
            program_binders(defs),
            |k: nat| n <= k && k < m,
        ),
    decreases ds.len(),
{
    if ds.len() == 0 {
        assert(program_binders(Seq::<DefTerm>::empty()) =~= Seq::<Seq<char>>::empty());
    } else {
        lemma_lowered_binders_distinct(ds.drop_last(), n);
        if let Ok((defs, m)) = lowered_definitions(ds, n) {
            let (front, n1) = lowered_definitions(ds.drop_last(), n)->Ok_0;
            let (params, body) = definition_parts(ds.last().value);
            let (locals, scope, n2) = bind_params(params, Seq::empty(), n1);
            lemma_bind_params_names(params, Seq::empty(), n1);
            lemma_params_fresh(params, Seq::empty(), n1);
            lemma_lowered_counts(body, scope, n2);
            lemma_lowered_binders(body, scope, n2);
            let d = crate::ir::lowered_definition(ds.last(), n1)->Ok_0.0;
            assert(defs == front.push(d));
            assert(defs.drop_last() =~= front);
            assert(defs.last() == d);
            let b = output_of(lowered(body, scope, n2));
            assert(d.params == locals && d.body == b);
            lemma_fresh_locals_concat(
                program_binders(front),
                locals,
                |k: nat| n <= k && k < n1,
                |k: nat| n1 <= k && k < n2,
                |k: nat| n <= k && k < n2,
            );
            lemma_fresh_locals_concat(
                program_binders(front) + locals,
                binders_of(b),
                |k: nat| n <= k && k < n2,
                |k: nat| n2 <= k && k < m,
                |k: nat| n <= k && k < m,
            );
        }
    }
}

} // verus!
