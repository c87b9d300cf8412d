//! Fuel-bounded partial evaluation of a closed language.
//!
//! `main` takes no input, there is no I/O, and nothing else arrives from
//! outside, so every value in a program is a function of the program text.
//! Bodies are rewritten top-down: a call whose arguments are all known is
//! inlined with its parameters substituted, and whatever folds is folded.
//! Everything else is left as a residual, so partial progress is kept.
//!
//! Fuel bounds the number of inlined calls. Values are the target's: signed
//! 24-bit numbers, immutable cons cells, `#t`/`#f` and `()`. Arithmetic that
//! would leave 24 bits is *not* folded, so a folded result can never disagree
//! with the same expression left to run.
use crate::ir::{
    count_nodes, copy_names, node_count, Program, ProgramTerm,
    lemma_binding_terms_of,
    binding_terms_of, copy_bindings, copy_expr, defs_of, fold_arithmetic, folded, is_value, names_of,
    term_of, terms_of, lemma_terms_of, DefTerm, Definition, Expr, Primitive, Term,
};
use vstd::prelude::*;

verus! {

/// Ceiling on the residual's node count. Past this the rewrite is abandoned
/// and the body kept as it was, which bounds code growth.
pub const MAX_NODES: usize = 1048576usize;

pub type Env = Seq<(Seq<char>, Term)>;

/// The latest binding of `name` in `env`.
pub open spec fn lookup(env: Env, name: Seq<char>) -> Option<Term>
    decreases env.len(),
{
    if env.len() == 0 {
        None
    } else if env.last().0 == name {
        Some(env.last().1)
    } else {
        lookup(env.drop_last(), name)
    }
}

/// The latest definition named `name`.
pub open spec fn find_def(defs: Seq<DefTerm>, name: Seq<char>) -> Option<DefTerm>
    decreases defs.len(),
{
    if defs.len() == 0 {
        None
    } else if defs.last().name == name {
        Some(defs.last())
    } else {
        find_def(defs.drop_last(), name)
    }
}

pub open spec fn zip_env(params: Seq<Seq<char>>, args: Seq<Term>) -> Env {
    Seq::new(params.len(), |i: int| (params[i], args[i]))
}

pub open spec fn all_values(s: Seq<Term>) -> bool {
    forall|i: int| 0 <= i < s.len() ==> is_value(#[trigger] s[i])
}

pub open spec fn clamp(f: nat, fuel: nat) -> nat {
    if f <= fuel {
        f
    } else {
        fuel
    }
}

/// A primitive applied to already rewritten arguments, folded when both are
/// numbers and the result is known.
pub open spec fn fold_term(op: Primitive, args: Seq<Term>) -> Term {
    if args.len() == 2 {
        match (args[0], args[1]) {
            (Term::Number(l), Term::Number(r)) => match op {
                Primitive::Eq => Term::Bool(l == r),
                Primitive::Lt => Term::Bool(l < r),
                Primitive::Gt => Term::Bool(l > r),
                Primitive::Le => Term::Bool(l <= r),
                Primitive::Ge => Term::Bool(l >= r),
                _ => match folded(op, l as int, r as int) {
                    Some(v) => Term::Number(v as i64),
                    None => Term::Primitive { op, args },
                },
            },
            _ => Term::Primitive { op, args },
        }
    } else {
        Term::Primitive { op, args }
    }
}

/// The bindings whose values are not literals, in order.
pub open spec fn residual_bindings(s: Seq<(Seq<char>, Term)>) -> Seq<(Seq<char>, Term)>
    decreases s.len(),
{
    if s.len() == 0 {
        s
    } else if is_value(s.last().1) {
        residual_bindings(s.drop_last())
    } else {
        residual_bindings(s.drop_last()).push(s.last())
    }
}

/// Partial evaluation of `t` under `env` with `fuel` inlinings left: the
/// rewritten term and the fuel that remains.
pub open spec fn pe(defs: Seq<DefTerm>, fuel: nat, t: Term, env: Env) -> (Term, nat)
    decreases fuel, t,
{
    match t {
        Term::Number(_) | Term::Bool(_) | Term::Nil => (t, fuel),
        Term::Var(name) => match lookup(env, name) {
            Some(v) => (v, fuel),
            None => (t, fuel),
        },
        Term::Primitive { op, args } => {
            let (a, f) = pe_seq(defs, fuel, args, env);
            (fold_term(op, a), f)
        },
        Term::Cons(h, tl) => {
            let (a, f1) = pe(defs, fuel, *h, env);
            let (b, f2) = pe(defs, clamp(f1, fuel), *tl, env);
            (Term::Cons(Box::new(a), Box::new(b)), f2)
        },
        Term::Car(v) => {
            let (a, f) = pe(defs, fuel, *v, env);
            (
                match a {
                    Term::Cons(h, _) => *h,
                    Term::Nil => Term::Number(0),
                    other => Term::Car(Box::new(other)),
                },
                f,
            )
        },
        Term::Cdr(v) => {
            let (a, f) = pe(defs, fuel, *v, env);
            (
                match a {
                    Term::Cons(_, tl) => *tl,
                    Term::Nil => Term::Nil,
                    other => Term::Cdr(Box::new(other)),
                },
                f,
            )
        },
        Term::Null(v) => {
            let (a, f) = pe(defs, fuel, *v, env);
            (
                match a {
                    Term::Cons(_, _) => Term::Bool(false),
                    Term::Nil => Term::Bool(true),
                    other => Term::Null(Box::new(other)),
                },
                f,
            )
        },
        Term::If { condition, then_branch, else_branch } => {
            let (c, f1) = pe(defs, fuel, *condition, env);
            match c {
                Term::Bool(taken) => pe(
                    defs,
                    clamp(f1, fuel),
                    if taken {
                        *then_branch
                    } else {
                        *else_branch
                    },
                    env,
                ),
                Term::Number(n) => pe(
                    defs,
                    clamp(f1, fuel),
                    if n == 0 {
                        *else_branch
                    } else {
                        *then_branch
                    },
                    env,
                ),
                other => {
                    let (a, f2) = pe(defs, clamp(f1, fuel), *then_branch, env);
                    let (b, f3) = pe(defs, clamp(f2, fuel), *else_branch, env);
                    (
                        Term::If {
                            condition: Box::new(other),
                            then_branch: Box::new(a),
                            else_branch: Box::new(b),
                        },
                        f3,
                    )
                },
            }
        },
        Term::Let { bindings, body } => {
            let (kept, inner, f1) = pe_bindings(defs, fuel, bindings, env);
            let (b, f2) = pe(defs, clamp(f1, fuel), *body, inner);
            let residual = residual_bindings(kept);
            (
                if residual.len() == 0 {
                    b
                } else {
                    Term::Let { bindings: residual, body: Box::new(b) }
                },
                f2,
            )
        },
        Term::Call { callee, args } => {
            let (a, f1) = pe_seq(defs, fuel, args, env);
            let f = clamp(f1, fuel);
            let residual = Term::Call { callee, args: a };
            if f == 0 || !all_values(a) {
                (residual, f1)
            } else {
                match find_def(defs, callee) {
                    None => (residual, f1),
                    Some(d) => if d.params.len() != a.len() {
                        (residual, f1)
                    } else {
                        pe(defs, (f - 1) as nat, d.body, zip_env(d.params, a))
                    },
                }
            }
        },
    }
}

/// Partial evaluation of each term in turn, threading the fuel.
pub open spec fn pe_seq(defs: Seq<DefTerm>, fuel: nat, s: Seq<Term>, env: Env) -> (Seq<Term>, nat)
    decreases fuel, s,
{
    if s.len() == 0 {
        (s, fuel)
    } else {
        let (front, f1) = pe_seq(defs, fuel, s.drop_last(), env);
        let (x, f2) = pe(defs, clamp(f1, fuel), s.last(), env);
        (front.push(x), f2)
    }
}

/// Partial evaluation of `let` bindings in order: each value sees the
/// literal bindings before it. Returns every rewritten binding, the extended
/// environment, and the remaining fuel.
pub open spec fn pe_bindings(
    defs: Seq<DefTerm>,
    fuel: nat,
    s: Seq<(Seq<char>, Term)>,
    env: Env,
) -> (Seq<(Seq<char>, Term)>, Env, nat)
    decreases fuel, s,
{
    if s.len() == 0 {
        (s, env, fuel)
    } else {
        let (front, inner, f1) = pe_bindings(defs, fuel, s.drop_last(), env);
        let (v, f2) = pe(defs, clamp(f1, fuel), s.last().1, inner);
        (
            front.push((s.last().0, v)),
            if is_value(v) {
                inner.push((s.last().0, v))
            } else {
                inner
            },
            f2,
        )
    }
}


/// Whether `e` is a literal: a number, a boolean, `()`, or a cons chain of
/// literals.
pub fn is_literal(e: &Expr) -> (r: bool)
    ensures
        r == is_value(e@),
    decreases e,
{
    match e {
        Expr::Number(_) | Expr::Bool(_) | Expr::Nil => true,
        Expr::Cons(h, t) => is_literal(h) && is_literal(t),
        _ => false,
    }
}

fn all_literal(args: &Vec<Expr>) -> (r: bool)
    ensures
        r == all_values(terms_of(args@)),
{
    proof { lemma_terms_of(args@); }
    let mut i: usize = 0;
    while i < args.len()
        invariant
            i <= args.len(),
            terms_of(args@).len() == args@.len(),
            forall|j: int| 0 <= j < args@.len() ==> #[trigger] terms_of(args@)[j] == term_of(args@[j]),
            forall|j: int| 0 <= j < i ==> is_value(#[trigger] terms_of(args@)[j]),
        decreases args.len() - i,
    {
        if !is_literal(&args[i]) {
            proof { assert(!is_value(terms_of(args@)[i as int])); }
            return false;
        }
        i = i + 1;
    }
    true
}

/// A copy of the latest value bound to `name`.
pub fn lookup_env(env: &Vec<(String, Expr)>, name: &String) -> (r: Option<Expr>)
    ensures
        r matches Some(v) ==> lookup(binding_terms_of(env@), name@) == Some(v@),
        r is None ==> lookup(binding_terms_of(env@), name@) is None,
{
    let mut i: usize = env.len();
    proof { assert(env@.take(env.len() as int) =~= env@); }
    while i > 0
        invariant
            i <= env.len(),
            lookup(binding_terms_of(env@), name@) == lookup(binding_terms_of(env@.take(i as int)), name@),
        decreases i,
    {
        proof {
            assert(env@.take(i as int).drop_last() =~= env@.take(i - 1));
            let pre = binding_terms_of(env@.take(i - 1));
            let b = env@[i - 1];
            assert(pre.push((b.0@, term_of(b.1))).drop_last() =~= pre);
        }
        if crate::text::same_text(&env[i - 1].0, name) {
            return Some(copy_expr(&env[i - 1].1));
        }
        i = i - 1;
    }
    None
}

/// The latest definition named `name`.
pub fn lookup_def<'a>(defs: &'a Vec<Definition>, name: &String) -> (r: Option<&'a Definition>)
    ensures
        r matches Some(d) ==> find_def(defs_of(defs@), name@) == Some(d@),
        r is None ==> find_def(defs_of(defs@), name@) is None,
{
    let mut i: usize = defs.len();
    proof { assert(defs@.take(defs.len() as int) =~= defs@); }
    while i > 0
        invariant
            i <= defs.len(),
            find_def(defs_of(defs@), name@) == find_def(defs_of(defs@.take(i as int)), name@),
        decreases i,
    {
        proof {
            assert(defs_of(defs@.take(i as int)).drop_last() =~= defs_of(defs@.take(i - 1)));
        }
        if crate::text::same_text(&defs[i - 1].name, name) {
            return Some(&defs[i - 1]);
        }
        i = i - 1;
    }
    None
}

/// The environment binding each parameter to the matching argument.
fn bind_arguments(params: &Vec<String>, args: Vec<Expr>) -> (r: Vec<(String, Expr)>)
    requires
        params.len() == args.len(),
    ensures
        binding_terms_of(r@) == zip_env(names_of(params@), terms_of(args@)),
{
    proof { lemma_terms_of(args@); }
    let mut out: Vec<(String, Expr)> = Vec::new();
    let mut i: usize = 0;
    while i < params.len()
        invariant
            i <= params.len(),
            params.len() == args.len(),
            terms_of(args@).len() == args@.len(),
            forall|j: int| 0 <= j < args@.len() ==> #[trigger] terms_of(args@)[j] == term_of(args@[j]),
            binding_terms_of(out@) == zip_env(names_of(params@), terms_of(args@)).take(i as int),
        decreases params.len() - i,
    {
        let pair = (params[i].clone(), copy_expr(&args[i]));
        proof {
            assert(out@.push(pair).drop_last() =~= out@);
            assert(zip_env(names_of(params@), terms_of(args@)).take(i + 1) =~= zip_env(
                names_of(params@),
                terms_of(args@),
            ).take(i as int).push((params@[i as int]@, term_of(args@[i as int]))));
        }
        out.push(pair);
        i = i + 1;
    }
    proof {
        assert(zip_env(names_of(params@), terms_of(args@)).take(params.len() as int) =~= zip_env(
            names_of(params@),
            terms_of(args@),
        ));
    }
    out
}

/// The folded form of a primitive whose arguments are already rewritten.
fn fold_args(op: Primitive, args: Vec<Expr>) -> (r: Expr)
    ensures
        r@ == fold_term(op, terms_of(args@)),
{
    proof { lemma_terms_of(args@); }
    if args.len() == 2 {
        match (&args[0], &args[1]) {
            (Expr::Number(l), Expr::Number(r)) => {
                let (l, r) = (*l, *r);
                match op {
                    Primitive::Eq => { return Expr::Bool(l == r); },
                    Primitive::Lt => { return Expr::Bool(l < r); },
                    Primitive::Gt => { return Expr::Bool(l > r); },
                    Primitive::Le => { return Expr::Bool(l <= r); },
                    Primitive::Ge => { return Expr::Bool(l >= r); },
                    _ => match fold_arithmetic(op, l, r) {
                        Some(v) => { return Expr::Number(v); },
                        None => {},
                    },
                }
            },
            _ => {},
        }
    }
    Expr::Primitive { op, args }
}

/// The bindings whose values are not literals, in order.
fn residual(kept: Vec<(String, Expr)>) -> (r: Vec<(String, Expr)>)
    ensures
        binding_terms_of(r@) == residual_bindings(binding_terms_of(kept@)),
{
    let mut out: Vec<(String, Expr)> = Vec::new();
    let mut i: usize = 0;
    while i < kept.len()
        invariant
            i <= kept.len(),
            binding_terms_of(out@) == residual_bindings(binding_terms_of(kept@.take(i as int))),
        decreases kept.len() - i,
    {
        proof {
            assert(kept@.take(i + 1).drop_last() =~= kept@.take(i as int));
            let pre = binding_terms_of(kept@.take(i as int));
            let b = kept@[i as int];
            assert(pre.push((b.0@, term_of(b.1))).drop_last() =~= pre);
        }
        if !is_literal(&kept[i].1) {
            let pair = (kept[i].0.clone(), copy_expr(&kept[i].1));
            proof { assert(out@.push(pair).drop_last() =~= out@); }
            out.push(pair);
        }
        i = i + 1;
    }
    proof { assert(kept@.take(kept.len() as int) =~= kept@); }
    out
}

/// The partial evaluator's state: the program's definitions and the fuel
/// that remains for inlining calls.
pub struct Pe<'a> {
    pub defs: &'a Vec<Definition>,
    pub fuel: u64,
}

impl<'a> Pe<'a> {
    /// 24-bit wrapping is the target's, so a fold must stay in range or not
    /// happen at all.
    pub fn arithmetic(&self, op: Primitive, left: i64, right: i64) -> (r: Option<i64>)
        ensures
            r matches Some(v) ==> folded(op, left as int, right as int) == Some(v as int),
            r is None ==> folded(op, left as int, right as int) is None,
    {
        fold_arithmetic(op, left, right)
    }

    /// Rewrite `expr` with `env` substituted, folding whatever is known.
    pub fn expr(&mut self, expr: &Expr, env: &Vec<(String, Expr)>) -> (r: Expr)
        ensures
            final(self).defs == old(self).defs,
            final(self).fuel <= old(self).fuel,
            (r@, final(self).fuel as nat) == pe(
                defs_of(old(self).defs@),
                old(self).fuel as nat,
                expr@,
                binding_terms_of(env@),
            ),
        decreases old(self).fuel, expr,
    {
        let ghost defs = defs_of(self.defs@);
        let ghost envt = binding_terms_of(env@);
        match expr {
            Expr::Number(n) => Expr::Number(*n),
            Expr::Bool(b) => Expr::Bool(*b),
            Expr::Nil => Expr::Nil,
            Expr::Var(name) => match lookup_env(env, name) {
                Some(v) => v,
                None => Expr::Var(name.clone()),
            },
            Expr::Primitive { op, args } => {
                let args = self.args(args, env);
                fold_args(*op, args)
            },
            Expr::Cons(h, t) => {
                let a = self.expr(h, env);
                let b = self.expr(t, env);
                Expr::Cons(Box::new(a), Box::new(b))
            },
            Expr::Car(v) => {
                let a = self.expr(v, env);
                match a {
                    Expr::Cons(h, _) => *h,
                    Expr::Nil => Expr::Number(0),
                    other => Expr::Car(Box::new(other)),
                }
            },
            Expr::Cdr(v) => {
                let a = self.expr(v, env);
                match a {
                    Expr::Cons(_, t) => *t,
                    Expr::Nil => Expr::Nil,
                    other => Expr::Cdr(Box::new(other)),
                }
            },
            Expr::Null(v) => {
                let a = self.expr(v, env);
                match a {
                    Expr::Cons(_, _) => Expr::Bool(false),
                    Expr::Nil => Expr::Bool(true),
                    other => Expr::Null(Box::new(other)),
                }
            },
            Expr::If { condition, then_branch, else_branch } => {
                let c = self.expr(condition, env);
                match c {
                    Expr::Bool(taken) => {
                        if taken {
                            self.expr(then_branch, env)
                        } else {
                            self.expr(else_branch, env)
                        }
                    },
                    Expr::Number(n) => {
                        if n == 0 {
                            self.expr(else_branch, env)
                        } else {
                            self.expr(then_branch, env)
                        }
                    },
                    other => {
                        let a = self.expr(then_branch, env);
                        let b = self.expr(else_branch, env);
                        Expr::If {
                            condition: Box::new(other),
                            then_branch: Box::new(a),
                            else_branch: Box::new(b),
                        }
                    },
                }
            },
            Expr::Let { bindings, body } => {
                let (kept, inner) = self.bindings(bindings, env);
                let b = self.expr(body, &inner);
                let kept = residual(kept);
                proof { lemma_binding_terms_of(kept@); }
                if kept.len() == 0 {
                    b
                } else {
                    Expr::Let { bindings: kept, body: Box::new(b) }
                }
            },
            Expr::Call { callee, args } => {
                let args = self.args(args, env);
                if self.fuel == 0 || !all_literal(&args) {
                    return Expr::Call { callee: callee.clone(), args };
                }
                let defs_ref = self.defs;
                match lookup_def(defs_ref, callee) {
                    None => Expr::Call { callee: callee.clone(), args },
                    Some(definition) => {
                        proof {
                            lemma_terms_of(args@);
                            assert(names_of(definition.params@).len() == definition.params@.len());
                        }
                        if definition.params.len() != args.len() {
                            return Expr::Call { callee: callee.clone(), args };
                        }
                        self.fuel = self.fuel - 1;
                        let inner = bind_arguments(&definition.params, args);
                        self.expr(&definition.body, &inner)
                    },
                }
            },
        }
    }

    /// Rewrite each argument in turn.
    pub fn args(&mut self, args: &Vec<Expr>, env: &Vec<(String, Expr)>) -> (r: Vec<Expr>)
        ensures
            final(self).defs == old(self).defs,
            final(self).fuel <= old(self).fuel,
            (terms_of(r@), final(self).fuel as nat) == pe_seq(
                defs_of(old(self).defs@),
                old(self).fuel as nat,
                terms_of(args@),
                binding_terms_of(env@),
            ),
        decreases old(self).fuel, args,
    {
        let ghost fuel0 = self.fuel as nat;
        let mut out: Vec<Expr> = Vec::new();
        let mut i: usize = 0;
        while i < args.len()
            invariant
                i <= args.len(),
                self.defs == old(self).defs,
                self.fuel <= fuel0,
                fuel0 == old(self).fuel,
                (terms_of(out@), self.fuel as nat) == pe_seq(
                    defs_of(self.defs@),
                    fuel0,
                    terms_of(args@.take(i as int)),
                    binding_terms_of(env@),
                ),
            decreases args.len() - i,
        {
            proof {
                assert(decreases_to!(args => args@[i as int]));
                assert(args@.take(i + 1).drop_last() =~= args@.take(i as int));
                let pre = terms_of(args@.take(i as int));
                assert(pre.push(term_of(args@[i as int])).drop_last() =~= pre);
            }
            let x = self.expr(&args[i], env);
            proof { assert(out@.push(x).drop_last() =~= out@); }
            out.push(x);
            i = i + 1;
        }
        proof { assert(args@.take(args.len() as int) =~= args@); }
        out
    }

    /// Rewrite `let` bindings in order; returns every rewritten binding and
    /// the environment extended with the literal ones.
    pub fn bindings(&mut self, bindings: &Vec<(String, Expr)>, env: &Vec<(String, Expr)>) -> (r: (
        Vec<(String, Expr)>,
        Vec<(String, Expr)>,
    ))
        ensures
            final(self).defs == old(self).defs,
            final(self).fuel <= old(self).fuel,
            (binding_terms_of(r.0@), binding_terms_of(r.1@), final(self).fuel as nat) == pe_bindings(
                defs_of(old(self).defs@),
                old(self).fuel as nat,
                binding_terms_of(bindings@),
                binding_terms_of(env@),
            ),
        decreases old(self).fuel, bindings,
    {
        let ghost fuel0 = self.fuel as nat;
        let mut kept: Vec<(String, Expr)> = Vec::new();
        let mut inner = copy_bindings(env);
        let mut i: usize = 0;
        while i < bindings.len()
            invariant
                i <= bindings.len(),
                self.defs == old(self).defs,
                self.fuel <= fuel0,
                fuel0 == old(self).fuel,
                (binding_terms_of(kept@), binding_terms_of(inner@), self.fuel as nat) == pe_bindings(
                    defs_of(self.defs@),
                    fuel0,
                    binding_terms_of(bindings@.take(i as int)),
                    binding_terms_of(env@),
                ),
            decreases bindings.len() - i,
        {
            proof {
                assert(decreases_to!(bindings => bindings@[i as int].1));
                assert(bindings@.take(i + 1).drop_last() =~= bindings@.take(i as int));
                let pre = binding_terms_of(bindings@.take(i as int));
                let b = bindings@[i as int];
                assert(pre.push((b.0@, term_of(b.1))).drop_last() =~= pre);
            }
            let v = self.expr(&bindings[i].1, &inner);
            if is_literal(&v) {
                let pair = (bindings[i].0.clone(), copy_expr(&v));
                proof { assert(inner@.push(pair).drop_last() =~= inner@); }
                inner.push(pair);
            }
            let pair = (bindings[i].0.clone(), v);
            proof { assert(kept@.push(pair).drop_last() =~= kept@); }
            kept.push(pair);
            i = i + 1;
        }
        proof { assert(bindings@.take(bindings.len() as int) =~= bindings@); }
        (kept, inner)
    }
}


/// What a body becomes: its partial evaluation from an empty environment,
/// unless that grows past [`MAX_NODES`], in which case it is kept.
pub open spec fn rewritten_body(defs: Seq<DefTerm>, fuel: nat, t: Term) -> Term {
    let r = pe(defs, fuel, t, Seq::empty()).0;
    if node_count(r) <= MAX_NODES {
        r
    } else {
        t
    }
}

fn rewrite(defs: &Vec<Definition>, fuel: u64, body: &Expr) -> (r: Expr)
    ensures
        r@ == rewritten_body(defs_of(defs@), fuel as nat, body@),
{
    let mut pe = Pe { defs, fuel };
    let empty: Vec<(String, Expr)> = Vec::new();
    proof { assert(binding_terms_of(empty@) =~= Seq::empty()); }
    let rewritten = pe.expr(body, &empty);
    if count_nodes(&rewritten) <= MAX_NODES {
        rewritten
    } else {
        copy_expr(body)
    }
}

/// The program with every body partially evaluated under `fuel`; unchanged
/// when there is no fuel.
pub open spec fn pevaled(p: ProgramTerm, fuel: nat) -> ProgramTerm {
    if fuel == 0 {
        p
    } else {
        ProgramTerm {
            definitions: p.definitions.map_values(
                |d: DefTerm| DefTerm { name: d.name, params: d.params, body: rewritten_body(p.definitions, fuel, d.body) },
            ),
            body: match p.body {
                Some(b) => Some(rewritten_body(p.definitions, fuel, b)),
                None => None,
            },
        }
    }
}

/// Partially evaluate every body with at most `fuel` inlined calls each.
pub fn apply(program: Program, fuel: u64) -> (r: Program)
    ensures
        r@ == pevaled(program@, fuel as nat),
        r.graphs == program.graphs,
        r.definitions@.len() == program.definitions@.len(),
        forall|i: int|
            0 <= i < r.definitions@.len() ==> {
                &&& #[trigger] r.definitions@[i].name@ == program.definitions@[i].name@
                &&& r.definitions@[i].params@ == program.definitions@[i].params@
                &&& r.definitions@[i].body@ == if fuel == 0 {
                    program.definitions@[i].body@
                } else {
                    rewritten_body(defs_of(program.definitions@), fuel as nat, program.definitions@[i].body@)
                }
            },
        r.body is Some <==> program.body is Some,
        program.body matches Some(b) ==> r.body.unwrap()@ == if fuel == 0 {
            b@
        } else {
            rewritten_body(defs_of(program.definitions@), fuel as nat, b@)
        },
{
    if fuel == 0 {
        return program;
    }
    let mut definitions: Vec<Definition> = Vec::new();
    let mut i: usize = 0;
    while i < program.definitions.len()
        invariant
            i <= program.definitions.len(),
            fuel > 0,
            definitions@.len() == i,
            forall|j: int|
                0 <= j < i ==> {
                    &&& #[trigger] definitions@[j].name@ == program.definitions@[j].name@
                    &&& definitions@[j].params@ == program.definitions@[j].params@
                    &&& definitions@[j].body@ == rewritten_body(
                        defs_of(program.definitions@),
                        fuel as nat,
                        program.definitions@[j].body@,
                    )
                },
        decreases program.definitions.len() - i,
    {
        let d = &program.definitions[i];
        let body = rewrite(&program.definitions, fuel, &d.body);
        definitions.push(Definition { name: d.name.clone(), params: copy_names(&d.params), body });
        i = i + 1;
    }
    let body = match &program.body {
        Some(b) => Some(rewrite(&program.definitions, fuel, b)),
        None => None,
    };
    proof {
        assert(defs_of(definitions@) =~= pevaled(program@, fuel as nat).definitions);
    }
    Program { definitions, graphs: program.graphs, body }
}

}
