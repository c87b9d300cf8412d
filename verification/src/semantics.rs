//! What an IR expression computes on the target: signed 24-bit numbers that
//! wrap, `()` and immutable cons cells. The optimizer's rewrites are stated
//! against this meaning.
use crate::ast::{AstDef, AstTerm};
use crate::ir::{
    bind_locals, bind_params, in_i24, local_name, lowered, lowered_args, lowered_body, lowered_definitions,
    lowered_values, quotient, DefTerm, Primitive, ProgramTerm, Term,
};
use crate::optimize::{
    dropped, dropped_all, dropped_bindings, finish_defs, is_scalar_literal, keep_needed, optimized,
    propagated, propagated_all, propagated_bindings, prune, replaced, replaced_all, replaced_bindings,
    settle_step, settled, simplified, simplified_all, simplified_bindings, used_by, uses, uses_all, uses_bindings,
    with_body, FreshState, Options, Renaming, opt_name, lemma_opt_name_injective, free_from, take_local,
    freshen, names_in, names_in_all, names_in_bindings, renamed, renamed_all, renamed_to, renamed_values,
    all_vars, bind_fresh, inlined, inlined_all, inlined_bindings, instantiated, var_renaming,
    definitions_names, helpers_of, inline_defs, is_inline_candidate, program_names, expanded, unrolled,
    unroll_defs, zip_len,
};
use crate::shape::{has_call, has_call_any, has_call_in_bindings, lemma_as_written_is_identity, reshaped, Shape};
use crate::peval::{find_def, lookup, pevaled, Env};
use crate::text::{decimal, lemma_decimal_digits};
use crate::sharing::{
    bodies_well_formed, lemma_finished_sharing_keeps_calls, lemma_settled_names, lemma_sharing_keeps_value, well_formed_in,
};
use crate::optimize::{finished, shared};
use vstd::prelude::*;

verus! {

/// A runtime value. Booleans are the numbers `1` and `0`, as the target
/// represents them.
pub enum Value {
    Num(int),
    Nil,
    Pair(Box<Value>, Box<Value>),
}

/// `v` reduced into the signed 24-bit range, as the target's arithmetic wraps
/// modulo 2^24.
pub open spec fn wrapped(v: int) -> int {
    (v + 8388608) % 16777216 - 8388608
}

/// A condition's result: `1` for true and `0` for false.
pub open spec fn flag(b: bool) -> Value {
    Value::Num(if b { 1 } else { 0 })
}

/// What `op` gives on two numbers: wrapping arithmetic, truncating division,
/// and `1`/`0` for comparisons. Division by zero is an error and gives nothing.
pub open spec fn primitive_value(op: Primitive, left: int, right: int) -> Option<Value> {
    match op {
        Primitive::Add => Some(Value::Num(wrapped(left + right))),
        Primitive::Sub => Some(Value::Num(wrapped(left - right))),
        Primitive::Mul => Some(Value::Num(wrapped(left * right))),
        Primitive::Mul0 => Some(Value::Num(if left == 0 || right == 0 { 0 } else { wrapped(left * right) })),
        Primitive::Div => if right == 0 {
            None
        } else {
            Some(Value::Num(wrapped(quotient(left, right))))
        },
        Primitive::Eq => Some(flag(left == right)),
        Primitive::Lt => Some(flag(left < right)),
        Primitive::Gt => Some(flag(left > right)),
        Primitive::Le => Some(flag(left <= right)),
        Primitive::Ge => Some(flag(left >= right)),
    }
}

/// The number an operand stands for in arithmetic. Arithmetic on the target
/// never fails: only division is partial. The target gives a list operand no
/// meaning of its own, and this model reads it as `0`.
pub open spec fn number_of(v: Value) -> int {
    match v {
        Value::Num(n) => n,
        _ => 0,
    }
}

/// The parameters bound to the argument values; a later duplicate wins.
pub open spec fn bound_params(params: Seq<Seq<char>>, values: Seq<Value>) -> Map<Seq<char>, Value>
    decreases params.len(),
{
    if params.len() == 0 || values.len() == 0 {
        Map::empty()
    } else {
        bound_params(params.drop_last(), values.drop_last()).insert(params.last(), values.last())
    }
}

/// The value of `t` in `env`, with `defs` for calls, making at most `fuel`
/// nested calls. `None` when evaluation goes wrong (an unbound name, a list
/// where `if`, `car`, `cdr` or `null?` needs another kind, a literal the
/// target cannot hold, a division by zero, an unknown callee or an arity
/// mismatch) or runs out of fuel. Arithmetic itself never fails but for
/// division by zero: an operand that is not a number reads as `number_of`.
///
/// Operands and call arguments are evaluated before they are used, `if` and
/// `null?` test `0` and `()` as the target does, and `car`/`cdr` of `()` give
/// the sentinels `0` and `()`. A `let` binds its names one after another, each
/// value seeing the names bound before it.
pub open spec fn evaluated(defs: Seq<DefTerm>, t: Term, env: Map<Seq<char>, Value>, fuel: nat) -> Option<Value>
    decreases fuel, t,
{
    match t {
        Term::Number(n) => if in_i24(n as int) {
            Some(Value::Num(n as int))
        } else {
            None
        },
        Term::Bool(b) => Some(flag(b)),
        Term::Nil => Some(Value::Nil),
        Term::Var(x) => if env.contains_key(x) {
            Some(env[x])
        } else {
            None
        },
        Term::Primitive { op, args } => if args.len() != 2 {
            None
        } else {
            match (evaluated(defs, args[0], env, fuel), evaluated(defs, args[1], env, fuel)) {
                (Some(l), Some(r)) => primitive_value(op, number_of(l), number_of(r)),
                _ => None,
            }
        },
        Term::Call { callee, args } => match evaluated_all(defs, args, env, fuel) {
            None => None,
            Some(values) => match find_def(defs, callee) {
                None => None,
                Some(d) => if d.params.len() != values.len() || fuel == 0 {
                    None
                } else {
                    evaluated(defs, d.body, bound_params(d.params, values), (fuel - 1) as nat)
                },
            },
        },
        Term::If { condition, then_branch, else_branch } => match evaluated(defs, *condition, env, fuel) {
            Some(Value::Num(c)) => if c == 0 {
                evaluated(defs, *else_branch, env, fuel)
            } else {
                evaluated(defs, *then_branch, env, fuel)
            },
            _ => None,
        },
        Term::Let { bindings, body } => match bound_in(defs, bindings, env, fuel) {
            Some(inner) => evaluated(defs, *body, inner, fuel),
            None => None,
        },
        Term::Cons(h, tl) => match (evaluated(defs, *h, env, fuel), evaluated(defs, *tl, env, fuel)) {
            (Some(a), Some(b)) => Some(Value::Pair(Box::new(a), Box::new(b))),
            _ => None,
        },
        Term::Car(v) => match evaluated(defs, *v, env, fuel) {
            Some(Value::Pair(a, _)) => Some(*a),
            Some(Value::Nil) => Some(Value::Num(0)),
            _ => None,
        },
        Term::Cdr(v) => match evaluated(defs, *v, env, fuel) {
            Some(Value::Pair(_, b)) => Some(*b),
            Some(Value::Nil) => Some(Value::Nil),
            _ => None,
        },
        Term::Null(v) => match evaluated(defs, *v, env, fuel) {
            Some(Value::Nil) => Some(flag(true)),
            Some(Value::Pair(_, _)) => Some(flag(false)),
            _ => None,
        },
    }
}

/// The values of `s` in order, if every one has a value.
pub open spec fn evaluated_all(defs: Seq<DefTerm>, s: Seq<Term>, env: Map<Seq<char>, Value>, fuel: nat) -> Option<
    Seq<Value>,
>
    decreases fuel, s,
{
    if s.len() == 0 {
        Some(Seq::empty())
    } else {
        match evaluated_all(defs, s.drop_last(), env, fuel) {
            None => None,
            Some(front) => match evaluated(defs, s.last(), env, fuel) {
                None => None,
                Some(v) => Some(front.push(v)),
            },
        }
    }
}

/// `env` extended by the bindings one after another.
pub open spec fn bound_in(
    defs: Seq<DefTerm>,
    s: Seq<(Seq<char>, Term)>,
    env: Map<Seq<char>, Value>,
    fuel: nat,
) -> Option<Map<Seq<char>, Value>>
    decreases fuel, s,
{
    if s.len() == 0 {
        Some(env)
    } else {
        match bound_in(defs, s.drop_last(), env, fuel) {
            None => None,
            Some(inner) => match evaluated(defs, s.last().1, inner, fuel) {
                None => None,
                Some(v) => Some(inner.insert(s.last().0, v)),
            },
        }
    }
}

/// Every number literal in `t` fits the signed 24-bit range, as the reader
/// guarantees of every program it accepts.
pub open spec fn literals_fit(t: Term) -> bool
    decreases t,
{
    match t {
        Term::Number(n) => in_i24(n as int),
        Term::Primitive { args, .. } => literals_fit_all(args),
        Term::Call { args, .. } => literals_fit_all(args),
        Term::If { condition, then_branch, else_branch } => literals_fit(*condition) && literals_fit(*then_branch)
            && literals_fit(*else_branch),
        Term::Let { bindings, body } => literals_fit_bindings(bindings) && literals_fit(*body),
        Term::Cons(h, tl) => literals_fit(*h) && literals_fit(*tl),
        Term::Car(v) => literals_fit(*v),
        Term::Cdr(v) => literals_fit(*v),
        Term::Null(v) => literals_fit(*v),
        _ => true,
    }
}

pub open spec fn literals_fit_all(s: Seq<Term>) -> bool
    decreases s,
{
    s.len() == 0 || (literals_fit_all(s.drop_last()) && literals_fit(s.last()))
}

pub open spec fn literals_fit_bindings(s: Seq<(Seq<char>, Term)>) -> bool
    decreases s,
{
    s.len() == 0 || (literals_fit_bindings(s.drop_last()) && literals_fit(s.last().1))
}

pub(crate) proof fn lemma_literals_fit_each(s: Seq<Term>)
    requires
        literals_fit_all(s),
    ensures
        forall|i: int| 0 <= i < s.len() ==> literals_fit(#[trigger] s[i]),
    decreases s.len(),
{
    if s.len() > 0 {
        lemma_literals_fit_each(s.drop_last());
        assert forall|i: int| 0 <= i < s.len() implies literals_fit(#[trigger] s[i]) by {
            if i < s.len() - 1 {
                assert(s.drop_last()[i] == s[i]);
            }
        }
    }
}

pub(crate) proof fn lemma_wrapped_fits(v: int)
    requires
        in_i24(v),
    ensures
        wrapped(v) == v,
{
    assert(0 <= v + 8388608 < 16777216);
    vstd::arithmetic::div_mod::lemma_small_mod((v + 8388608) as nat, 16777216);
}

/// Each primitive name means on the target what Scheme says it means:
/// `+`, `-` and `*` wrap into the signed 24-bit range, `/` truncates and
/// fails on zero, `mul0` gives `0` when either operand is `0`, and the
/// comparisons give `1` exactly when they hold and `0` otherwise.
pub proof fn lemma_primitive_names_mean(l: int, r: int)
    ensures
        primitive_value(crate::ir::primitive_of("+"@).unwrap(), l, r) == Some(Value::Num(wrapped(l + r))),
        primitive_value(crate::ir::primitive_of("-"@).unwrap(), l, r) == Some(Value::Num(wrapped(l - r))),
        primitive_value(crate::ir::primitive_of("*"@).unwrap(), l, r) == Some(Value::Num(wrapped(l * r))),
        primitive_value(crate::ir::primitive_of("mul0"@).unwrap(), l, r) == Some(
            Value::Num(if l == 0 || r == 0 { 0 } else { wrapped(l * r) }),
        ),
        r == 0 ==> primitive_value(crate::ir::primitive_of("/"@).unwrap(), l, r) is None,
        r != 0 ==> primitive_value(crate::ir::primitive_of("/"@).unwrap(), l, r) == Some(
            Value::Num(wrapped(quotient(l, r))),
        ),
        primitive_value(crate::ir::primitive_of("="@).unwrap(), l, r) == Some(Value::Num(if l == r { 1 } else { 0 })),
        primitive_value(crate::ir::primitive_of("<"@).unwrap(), l, r) == Some(Value::Num(if l < r { 1 } else { 0 })),
        primitive_value(crate::ir::primitive_of(">"@).unwrap(), l, r) == Some(Value::Num(if l > r { 1 } else { 0 })),
        primitive_value(crate::ir::primitive_of("<="@).unwrap(), l, r) == Some(
            Value::Num(if l <= r { 1 } else { 0 }),
        ),
        primitive_value(crate::ir::primitive_of(">="@).unwrap(), l, r) == Some(
            Value::Num(if l >= r { 1 } else { 0 }),
        ),
{
    reveal_strlit("+");
    reveal_strlit("-");
    reveal_strlit("*");
    reveal_strlit("mul0");
    reveal_strlit("/");
    reveal_strlit("=");
    reveal_strlit("<");
    reveal_strlit(">");
    reveal_strlit("<=");
    reveal_strlit(">=");
    assert("-"@ != "+"@) by { assert("-"@.len() != "+"@.len() || "-"@[0] != "+"@[0] || "-"@[1] != "+"@[1]); }
    assert("*"@ != "+"@) by { assert("*"@.len() != "+"@.len() || "*"@[0] != "+"@[0] || "*"@[1] != "+"@[1]); }
    assert("*"@ != "-"@) by { assert("*"@.len() != "-"@.len() || "*"@[0] != "-"@[0] || "*"@[1] != "-"@[1]); }
    assert("mul0"@ != "+"@) by { assert("mul0"@.len() != "+"@.len() || "mul0"@[0] != "+"@[0] || "mul0"@[1] != "+"@[1]); }
    assert("mul0"@ != "-"@) by { assert("mul0"@.len() != "-"@.len() || "mul0"@[0] != "-"@[0] || "mul0"@[1] != "-"@[1]); }
    assert("mul0"@ != "*"@) by { assert("mul0"@.len() != "*"@.len() || "mul0"@[0] != "*"@[0] || "mul0"@[1] != "*"@[1]); }
    assert("/"@ != "+"@) by { assert("/"@.len() != "+"@.len() || "/"@[0] != "+"@[0] || "/"@[1] != "+"@[1]); }
    assert("/"@ != "-"@) by { assert("/"@.len() != "-"@.len() || "/"@[0] != "-"@[0] || "/"@[1] != "-"@[1]); }
    assert("/"@ != "*"@) by { assert("/"@.len() != "*"@.len() || "/"@[0] != "*"@[0] || "/"@[1] != "*"@[1]); }
    assert("/"@ != "mul0"@) by { assert("/"@.len() != "mul0"@.len() || "/"@[0] != "mul0"@[0] || "/"@[1] != "mul0"@[1]); }
    assert("="@ != "+"@) by { assert("="@.len() != "+"@.len() || "="@[0] != "+"@[0] || "="@[1] != "+"@[1]); }
    assert("="@ != "-"@) by { assert("="@.len() != "-"@.len() || "="@[0] != "-"@[0] || "="@[1] != "-"@[1]); }
    assert("="@ != "*"@) by { assert("="@.len() != "*"@.len() || "="@[0] != "*"@[0] || "="@[1] != "*"@[1]); }
    assert("="@ != "mul0"@) by { assert("="@.len() != "mul0"@.len() || "="@[0] != "mul0"@[0] || "="@[1] != "mul0"@[1]); }
    assert("="@ != "/"@) by { assert("="@.len() != "/"@.len() || "="@[0] != "/"@[0] || "="@[1] != "/"@[1]); }
    assert("<"@ != "+"@) by { assert("<"@.len() != "+"@.len() || "<"@[0] != "+"@[0] || "<"@[1] != "+"@[1]); }
    assert("<"@ != "-"@) by { assert("<"@.len() != "-"@.len() || "<"@[0] != "-"@[0] || "<"@[1] != "-"@[1]); }
    assert("<"@ != "*"@) by { assert("<"@.len() != "*"@.len() || "<"@[0] != "*"@[0] || "<"@[1] != "*"@[1]); }
    assert("<"@ != "mul0"@) by { assert("<"@.len() != "mul0"@.len() || "<"@[0] != "mul0"@[0] || "<"@[1] != "mul0"@[1]); }
    assert("<"@ != "/"@) by { assert("<"@.len() != "/"@.len() || "<"@[0] != "/"@[0] || "<"@[1] != "/"@[1]); }
    assert("<"@ != "="@) by { assert("<"@.len() != "="@.len() || "<"@[0] != "="@[0] || "<"@[1] != "="@[1]); }
    assert(">"@ != "+"@) by { assert(">"@.len() != "+"@.len() || ">"@[0] != "+"@[0] || ">"@[1] != "+"@[1]); }
    assert(">"@ != "-"@) by { assert(">"@.len() != "-"@.len() || ">"@[0] != "-"@[0] || ">"@[1] != "-"@[1]); }
    assert(">"@ != "*"@) by { assert(">"@.len() != "*"@.len() || ">"@[0] != "*"@[0] || ">"@[1] != "*"@[1]); }
    assert(">"@ != "mul0"@) by { assert(">"@.len() != "mul0"@.len() || ">"@[0] != "mul0"@[0] || ">"@[1] != "mul0"@[1]); }
    assert(">"@ != "/"@) by { assert(">"@.len() != "/"@.len() || ">"@[0] != "/"@[0] || ">"@[1] != "/"@[1]); }
    assert(">"@ != "="@) by { assert(">"@.len() != "="@.len() || ">"@[0] != "="@[0] || ">"@[1] != "="@[1]); }
    assert(">"@ != "<"@) by { assert(">"@.len() != "<"@.len() || ">"@[0] != "<"@[0] || ">"@[1] != "<"@[1]); }
    assert("<="@ != "+"@) by { assert("<="@.len() != "+"@.len() || "<="@[0] != "+"@[0] || "<="@[1] != "+"@[1]); }
    assert("<="@ != "-"@) by { assert("<="@.len() != "-"@.len() || "<="@[0] != "-"@[0] || "<="@[1] != "-"@[1]); }
    assert("<="@ != "*"@) by { assert("<="@.len() != "*"@.len() || "<="@[0] != "*"@[0] || "<="@[1] != "*"@[1]); }
    assert("<="@ != "mul0"@) by { assert("<="@.len() != "mul0"@.len() || "<="@[0] != "mul0"@[0] || "<="@[1] != "mul0"@[1]); }
    assert("<="@ != "/"@) by { assert("<="@.len() != "/"@.len() || "<="@[0] != "/"@[0] || "<="@[1] != "/"@[1]); }
    assert("<="@ != "="@) by { assert("<="@.len() != "="@.len() || "<="@[0] != "="@[0] || "<="@[1] != "="@[1]); }
    assert("<="@ != "<"@) by { assert("<="@.len() != "<"@.len() || "<="@[0] != "<"@[0] || "<="@[1] != "<"@[1]); }
    assert("<="@ != ">"@) by { assert("<="@.len() != ">"@.len() || "<="@[0] != ">"@[0] || "<="@[1] != ">"@[1]); }
    assert(">="@ != "+"@) by { assert(">="@.len() != "+"@.len() || ">="@[0] != "+"@[0] || ">="@[1] != "+"@[1]); }
    assert(">="@ != "-"@) by { assert(">="@.len() != "-"@.len() || ">="@[0] != "-"@[0] || ">="@[1] != "-"@[1]); }
    assert(">="@ != "*"@) by { assert(">="@.len() != "*"@.len() || ">="@[0] != "*"@[0] || ">="@[1] != "*"@[1]); }
    assert(">="@ != "mul0"@) by { assert(">="@.len() != "mul0"@.len() || ">="@[0] != "mul0"@[0] || ">="@[1] != "mul0"@[1]); }
    assert(">="@ != "/"@) by { assert(">="@.len() != "/"@.len() || ">="@[0] != "/"@[0] || ">="@[1] != "/"@[1]); }
    assert(">="@ != "="@) by { assert(">="@.len() != "="@.len() || ">="@[0] != "="@[0] || ">="@[1] != "="@[1]); }
    assert(">="@ != "<"@) by { assert(">="@.len() != "<"@.len() || ">="@[0] != "<"@[0] || ">="@[1] != "<"@[1]); }
    assert(">="@ != ">"@) by { assert(">="@.len() != ">"@.len() || ">="@[0] != ">"@[0] || ">="@[1] != ">"@[1]); }
    assert(">="@ != "<="@) by { assert(">="@.len() != "<="@.len() || ">="@[0] != "<="@[0] || ">="@[1] != "<="@[1]); }
}

/// Only the ten primitive names of the subset name a primitive.
pub proof fn lemma_primitive_names_only(name: Seq<char>)
    ensures
        crate::ir::primitive_of(name) is Some <==> (name == "+"@ || name == "-"@ || name == "*"@ || name == "mul0"@
            || name == "/"@ || name == "="@ || name == "<"@ || name == ">"@ || name == "<="@ || name == ">="@),
{
}

/// A Scheme primitive application `(op a b)` lowers to a term that, once
/// both operands have values, computes `op` on the numbers they stand for,
/// left operand first: with `lemma_primitive_names_mean`, what Scheme says
/// `op` means.
pub proof fn lemma_lowered_primitive_value(
    name: Seq<char>,
    a: AstTerm,
    b: AstTerm,
    scope: Renaming,
    n: nat,
    defs: Seq<DefTerm>,
    env: Map<Seq<char>, Value>,
    fuel: nat,
)
    requires
        crate::ir::primitive_of(name) is Some,
        !crate::ir::in_scope(scope, name),
        lowered(AstTerm::Apply { function: Box::new(AstTerm::Var(name)), args: seq![a, b] }, scope, n) is Ok,
    ensures
        lowered(a, scope, n) is Ok,
        lowered(b, scope, counter_after(lowered(a, scope, n))) is Ok,
        evaluated(
            defs,
            output_of(lowered(AstTerm::Apply { function: Box::new(AstTerm::Var(name)), args: seq![a, b] }, scope, n)),
            env,
            fuel,
        ) == match (
            evaluated(defs, output_of(lowered(a, scope, n)), env, fuel),
            evaluated(defs, output_of(lowered(b, scope, counter_after(lowered(a, scope, n)))), env, fuel),
        ) {
            (Some(x), Some(y)) => primitive_value(crate::ir::primitive_of(name).unwrap(), number_of(x), number_of(y)),
            _ => None,
        },
{
    let args = seq![a, b];
    let e = AstTerm::Apply { function: Box::new(AstTerm::Var(name)), args };
    assert(lowered_args(args, scope, n) is Ok);
    assert(args.drop_last() =~= seq![a]);
    assert(seq![a].drop_last() =~= Seq::<AstTerm>::empty());
    assert(args.last() == b && seq![a].last() == a);
    assert(lowered_args(Seq::<AstTerm>::empty(), scope, n) == Ok::<(Seq<Term>, nat), Seq<char>>((Seq::empty(), n)));
    assert(lowered_args(seq![a], scope, n) is Ok);
    assert(lowered(a, scope, n) is Ok);
    let (la, n1) = lowered(a, scope, n)->Ok_0;
    assert(lowered_args(seq![a], scope, n) == Ok::<(Seq<Term>, nat), Seq<char>>((seq![la], n1))) by {
        assert(Seq::<Term>::empty().push(la) =~= seq![la]);
    }
    assert(lowered(b, scope, n1) is Ok);
    let (lb, n2) = lowered(b, scope, n1)->Ok_0;
    assert(lowered_args(args, scope, n) == Ok::<(Seq<Term>, nat), Seq<char>>((seq![la, lb], n2))) by {
        assert(seq![la].push(lb) =~= seq![la, lb]);
    }
    let op = crate::ir::primitive_of(name).unwrap();
    assert(lowered(e, scope, n) == Ok::<(Term, nat), Seq<char>>((Term::Primitive { op, args: seq![la, lb] }, n2)));
}

/// `(car (cons a b))` lowers to a term giving the value of `a`, and
/// `(cdr (cons a b))` to one giving the value of `b`, once both have values.
pub proof fn lemma_lowered_pair_access(
    a: AstTerm,
    b: AstTerm,
    scope: Renaming,
    n: nat,
    defs: Seq<DefTerm>,
    env: Map<Seq<char>, Value>,
    fuel: nat,
)
    requires
        lowered(a, scope, n) is Ok,
        lowered(b, scope, counter_after(lowered(a, scope, n))) is Ok,
        evaluated(defs, output_of(lowered(a, scope, n)), env, fuel) is Some,
        evaluated(defs, output_of(lowered(b, scope, counter_after(lowered(a, scope, n)))), env, fuel) is Some,
    ensures
        evaluated(
            defs,
            output_of(lowered(AstTerm::Car(Box::new(AstTerm::Cons(Box::new(a), Box::new(b)))), scope, n)),
            env,
            fuel,
        ) == evaluated(defs, output_of(lowered(a, scope, n)), env, fuel),
        evaluated(
            defs,
            output_of(lowered(AstTerm::Cdr(Box::new(AstTerm::Cons(Box::new(a), Box::new(b)))), scope, n)),
            env,
            fuel,
        ) == evaluated(defs, output_of(lowered(b, scope, counter_after(lowered(a, scope, n)))), env, fuel),
        evaluated(
            defs,
            output_of(lowered(AstTerm::Null(Box::new(AstTerm::Cons(Box::new(a), Box::new(b)))), scope, n)),
            env,
            fuel,
        ) == Some(Value::Num(0)),
{
    let pair = AstTerm::Cons(Box::new(a), Box::new(b));
    let (la, n1) = lowered(a, scope, n)->Ok_0;
    let (lb, n2) = lowered(b, scope, n1)->Ok_0;
    let x = Term::Cons(Box::new(la), Box::new(lb));
    assert(lowered(pair, scope, n) == Ok::<(Term, nat), Seq<char>>((x, n2)));
    assert(lowered(AstTerm::Car(Box::new(pair)), scope, n) == Ok::<(Term, nat), Seq<char>>((Term::Car(Box::new(x)), n2)));
    assert(lowered(AstTerm::Cdr(Box::new(pair)), scope, n) == Ok::<(Term, nat), Seq<char>>((Term::Cdr(Box::new(x)), n2)));
    let va = evaluated(defs, la, env, fuel).unwrap();
    let vb = evaluated(defs, lb, env, fuel).unwrap();
    assert(evaluated(defs, x, env, fuel) == Some(Value::Pair(Box::new(va), Box::new(vb))));
    assert(lowered(AstTerm::Null(Box::new(pair)), scope, n) == Ok::<(Term, nat), Seq<char>>(
        (Term::Null(Box::new(x)), n2),
    ));
}

/// `(if c a b)` lowers to a term that, when `c` gives a number, gives what
/// `a` gives if that number is not zero and what `b` gives if it is.
pub proof fn lemma_lowered_if_value(
    c: AstTerm,
    a: AstTerm,
    b: AstTerm,
    scope: Renaming,
    n: nat,
    defs: Seq<DefTerm>,
    env: Map<Seq<char>, Value>,
    fuel: nat,
)
    requires
        lowered(
            AstTerm::If { condition: Box::new(c), then_branch: Box::new(a), else_branch: Box::new(b) },
            scope,
            n,
        ) is Ok,
    ensures
        ({
            let (lc, n1) = lowered(c, scope, n)->Ok_0;
            let (la, n2) = lowered(a, scope, n1)->Ok_0;
            let (lb, _) = lowered(b, scope, n2)->Ok_0;
            let t = output_of(
                lowered(
                    AstTerm::If { condition: Box::new(c), then_branch: Box::new(a), else_branch: Box::new(b) },
                    scope,
                    n,
                ),
            );
            &&& evaluated(defs, lc, env, fuel) is Some && evaluated(defs, lc, env, fuel).unwrap() is Num && evaluated(
                defs,
                lc,
                env,
                fuel,
            ).unwrap()->Num_0 != 0 ==> evaluated(defs, t, env, fuel) == evaluated(defs, la, env, fuel)
            &&& evaluated(defs, lc, env, fuel) == Some(Value::Num(0)) ==> evaluated(defs, t, env, fuel) == evaluated(
                defs,
                lb,
                env,
                fuel,
            )
        }),
{
}

/// Folding and dead-branch removal never change what an expression computes:
/// a fold happens only where the target's wrapping arithmetic would give the
/// same number, and an `if` on a literal keeps exactly the arm the target
/// takes.
pub proof fn lemma_simplified_keeps_value(defs: Seq<DefTerm>, t: Term, env: Map<Seq<char>, Value>, fuel: nat)
    requires
        literals_fit(t),
    ensures
        evaluated(defs, simplified(t), env, fuel) == evaluated(defs, t, env, fuel),
        literals_fit(simplified(t)),
    decreases t,
{
    match t {
        Term::Primitive { op, args } => {
            let a = simplified_all(args);
            lemma_simplified_all_keeps_values(defs, args, env, fuel);
            if args.len() == 2 {
                lemma_literals_fit_each(args);
                lemma_simplified_keeps_value(defs, args[0], env, fuel);
                lemma_simplified_keeps_value(defs, args[1], env, fuel);
                assert(a[0] == simplified(args[0]) && a[1] == simplified(args[1]));
                if let (Term::Number(l), Term::Number(r)) = (a[0], a[1]) {
                    if let Some(v) = crate::ir::folded(op, l as int, r as int) {
                        lemma_wrapped_fits(v);
                    }
                }
            }
        },
        Term::Call { callee, args } => {
            lemma_simplified_all_keeps_values(defs, args, env, fuel);
        },
        Term::If { condition, then_branch, else_branch } => {
            lemma_simplified_keeps_value(defs, *condition, env, fuel);
            lemma_simplified_keeps_value(defs, *then_branch, env, fuel);
            lemma_simplified_keeps_value(defs, *else_branch, env, fuel);
        },
        Term::Let { bindings, body } => {
            lemma_simplified_bindings_keep_values(defs, bindings, env, fuel);
            match bound_in(defs, bindings, env, fuel) {
                Some(inner) => lemma_simplified_keeps_value(defs, *body, inner, fuel),
                None => {},
            }
            lemma_simplified_keeps_value(defs, *body, env, fuel);
        },
        Term::Cons(h, tl) => {
            lemma_simplified_keeps_value(defs, *h, env, fuel);
            lemma_simplified_keeps_value(defs, *tl, env, fuel);
        },
        Term::Car(v) => lemma_simplified_keeps_value(defs, *v, env, fuel),
        Term::Cdr(v) => lemma_simplified_keeps_value(defs, *v, env, fuel),
        Term::Null(v) => lemma_simplified_keeps_value(defs, *v, env, fuel),
        _ => {},
    }
}

proof fn lemma_simplified_all_keeps_values(defs: Seq<DefTerm>, s: Seq<Term>, env: Map<Seq<char>, Value>, fuel: nat)
    requires
        literals_fit_all(s),
    ensures
        evaluated_all(defs, simplified_all(s), env, fuel) == evaluated_all(defs, s, env, fuel),
        literals_fit_all(simplified_all(s)),
        simplified_all(s).len() == s.len(),
        forall|i: int| 0 <= i < s.len() ==> simplified_all(s)[i] == simplified(#[trigger] s[i]),
    decreases s,
{
    if s.len() > 0 {
        lemma_simplified_all_keeps_values(defs, s.drop_last(), env, fuel);
        lemma_simplified_keeps_value(defs, s.last(), env, fuel);
        assert(simplified_all(s).drop_last() =~= simplified_all(s.drop_last()));
        assert forall|i: int| 0 <= i < s.len() implies simplified_all(s)[i] == simplified(#[trigger] s[i]) by {
            if i < s.len() - 1 {
                assert(s.drop_last()[i] == s[i]);
                assert(simplified_all(s.drop_last())[i] == simplified_all(s)[i]);
            }
        }
    }
}

proof fn lemma_simplified_bindings_keep_values(
    defs: Seq<DefTerm>,
    s: Seq<(Seq<char>, Term)>,
    env: Map<Seq<char>, Value>,
    fuel: nat,
)
    requires
        literals_fit_bindings(s),
    ensures
        bound_in(defs, simplified_bindings(s), env, fuel) == bound_in(defs, s, env, fuel),
        literals_fit_bindings(simplified_bindings(s)),
    decreases s,
{
    if s.len() > 0 {
        lemma_simplified_bindings_keep_values(defs, s.drop_last(), env, fuel);
        assert(simplified_bindings(s).drop_last() =~= simplified_bindings(s.drop_last()));
        match bound_in(defs, s.drop_last(), env, fuel) {
            Some(inner) => lemma_simplified_keeps_value(defs, s.last().1, inner, fuel),
            None => lemma_simplified_keeps_value(defs, s.last().1, env, fuel),
        }
    }
}

// ---------------------------------------------------------------------------
// Names a value depends on
// ---------------------------------------------------------------------------

/// `e1` and `e2` bind every name of `names` alike: both leave it unbound, or
/// both bind it to the same value.
pub open spec fn agree_on(e1: Map<Seq<char>, Value>, e2: Map<Seq<char>, Value>, names: Seq<Seq<char>>) -> bool {
    forall|n: Seq<char>|
        #[trigger] names.contains(n) ==> e1.contains_key(n) == e2.contains_key(n) && (e1.contains_key(n) ==> e1[n]
            == e2[n])
}

/// Every name of `a` is among `b`.
pub open spec fn within(a: Seq<Seq<char>>, b: Seq<Seq<char>>) -> bool {
    forall|n: Seq<char>| #[trigger] a.contains(n) ==> b.contains(n)
}

proof fn lemma_agree_on_fewer(
    e1: Map<Seq<char>, Value>,
    e2: Map<Seq<char>, Value>,
    names: Seq<Seq<char>>,
    fewer: Seq<Seq<char>>,
)
    requires
        agree_on(e1, e2, names),
        within(fewer, names),
    ensures
        agree_on(e1, e2, fewer),
{
    assert forall|n: Seq<char>| #[trigger] fewer.contains(n) implies e1.contains_key(n) == e2.contains_key(n) && (
    e1.contains_key(n) ==> e1[n] == e2[n]) by {
        assert(names.contains(n));
    }
}

proof fn lemma_within_concat(a: Seq<Seq<char>>, b: Seq<Seq<char>>, c: Seq<Seq<char>>)
    requires
        within(a + b, c),
    ensures
        within(a, c),
        within(b, c),
{
    broadcast use vstd::seq_lib::lemma_seq_concat_contains_all_elements;

    assert forall|n: Seq<char>| #[trigger] a.contains(n) implies c.contains(n) by {
        assert((a + b).contains(n));
    }
    assert forall|n: Seq<char>| #[trigger] b.contains(n) implies c.contains(n) by {
        assert((a + b).contains(n));
    }
}

proof fn lemma_uses_all_within(s: Seq<Term>)
    ensures
        forall|i: int| 0 <= i < s.len() ==> within(uses(#[trigger] s[i]), uses_all(s)),
    decreases s.len(),
{
    broadcast use vstd::seq_lib::lemma_seq_concat_contains_all_elements;

    if s.len() > 0 {
        lemma_uses_all_within(s.drop_last());
        assert forall|i: int| 0 <= i < s.len() implies within(uses(#[trigger] s[i]), uses_all(s)) by {
            if i < s.len() - 1 {
                assert(s.drop_last()[i] == s[i]);
            }
        }
    }
}

/// What an expression evaluates to depends only on the names it mentions.
pub proof fn lemma_agreeing_scopes(
    defs: Seq<DefTerm>,
    t: Term,
    e1: Map<Seq<char>, Value>,
    e2: Map<Seq<char>, Value>,
    fuel: nat,
)
    requires
        agree_on(e1, e2, uses(t)),
    ensures
        evaluated(defs, t, e1, fuel) == evaluated(defs, t, e2, fuel),
    decreases t,
{
    broadcast use vstd::seq_lib::lemma_seq_concat_contains_all_elements;

    let u = uses(t);
    match t {
        Term::Var(x) => {
            assert(u.contains(x)) by {
                assert(u[0] == x);
            }
        },
        Term::Primitive { op, args } => {
            lemma_uses_all_within(args);
            if args.len() == 2 {
                lemma_agree_on_fewer(e1, e2, u, uses(args[0]));
                lemma_agree_on_fewer(e1, e2, u, uses(args[1]));
                lemma_agreeing_scopes(defs, args[0], e1, e2, fuel);
                lemma_agreeing_scopes(defs, args[1], e1, e2, fuel);
            }
        },
        Term::Call { callee, args } => {
            lemma_agree_on_fewer(e1, e2, u, uses_all(args));
            lemma_agreeing_scopes_all(defs, args, e1, e2, fuel);
        },
        Term::If { condition, then_branch, else_branch } => {
            lemma_agree_on_fewer(e1, e2, u, uses(*condition));
            lemma_agree_on_fewer(e1, e2, u, uses(*then_branch));
            lemma_agree_on_fewer(e1, e2, u, uses(*else_branch));
            lemma_agreeing_scopes(defs, *condition, e1, e2, fuel);
            lemma_agreeing_scopes(defs, *then_branch, e1, e2, fuel);
            lemma_agreeing_scopes(defs, *else_branch, e1, e2, fuel);
        },
        Term::Let { bindings, body } => {
            lemma_agreeing_bindings(defs, bindings, e1, e2, fuel, u);
            match (bound_in(defs, bindings, e1, fuel), bound_in(defs, bindings, e2, fuel)) {
                (Some(i1), Some(i2)) => {
                    lemma_agree_on_fewer(i1, i2, u, uses(*body));
                    lemma_agreeing_scopes(defs, *body, i1, i2, fuel);
                },
                _ => {},
            }
        },
        Term::Cons(h, tl) => {
            lemma_agree_on_fewer(e1, e2, u, uses(*h));
            lemma_agree_on_fewer(e1, e2, u, uses(*tl));
            lemma_agreeing_scopes(defs, *h, e1, e2, fuel);
            lemma_agreeing_scopes(defs, *tl, e1, e2, fuel);
        },
        Term::Car(v) => lemma_agreeing_scopes(defs, *v, e1, e2, fuel),
        Term::Cdr(v) => lemma_agreeing_scopes(defs, *v, e1, e2, fuel),
        Term::Null(v) => lemma_agreeing_scopes(defs, *v, e1, e2, fuel),
        _ => {},
    }
}

proof fn lemma_agreeing_scopes_all(
    defs: Seq<DefTerm>,
    s: Seq<Term>,
    e1: Map<Seq<char>, Value>,
    e2: Map<Seq<char>, Value>,
    fuel: nat,
)
    requires
        agree_on(e1, e2, uses_all(s)),
    ensures
        evaluated_all(defs, s, e1, fuel) == evaluated_all(defs, s, e2, fuel),
    decreases s,
{
    broadcast use vstd::seq_lib::lemma_seq_concat_contains_all_elements;

    if s.len() > 0 {
        lemma_agree_on_fewer(e1, e2, uses_all(s), uses_all(s.drop_last()));
        lemma_agree_on_fewer(e1, e2, uses_all(s), uses(s.last()));
        lemma_agreeing_scopes_all(defs, s.drop_last(), e1, e2, fuel);
        lemma_agreeing_scopes(defs, s.last(), e1, e2, fuel);
    }
}

proof fn lemma_agreeing_bindings(
    defs: Seq<DefTerm>,
    s: Seq<(Seq<char>, Term)>,
    e1: Map<Seq<char>, Value>,
    e2: Map<Seq<char>, Value>,
    fuel: nat,
    names: Seq<Seq<char>>,
)
    requires
        agree_on(e1, e2, names),
        within(uses_bindings(s), names),
    ensures
        bound_in(defs, s, e1, fuel) is Some <==> bound_in(defs, s, e2, fuel) is Some,
        bound_in(defs, s, e1, fuel) is Some ==> agree_on(
            bound_in(defs, s, e1, fuel).unwrap(),
            bound_in(defs, s, e2, fuel).unwrap(),
            names,
        ),
    decreases s,
{
    broadcast use vstd::seq_lib::lemma_seq_concat_contains_all_elements;

    if s.len() > 0 {
        lemma_within_concat(uses_bindings(s.drop_last()), uses(s.last().1), names);
        lemma_agreeing_bindings(defs, s.drop_last(), e1, e2, fuel, names);
        match (bound_in(defs, s.drop_last(), e1, fuel), bound_in(defs, s.drop_last(), e2, fuel)) {
            (Some(i1), Some(i2)) => {
                lemma_agree_on_fewer(i1, i2, names, uses(s.last().1));
                lemma_agreeing_scopes(defs, s.last().1, i1, i2, fuel);
                if let (Some(o1), Some(o2)) = (bound_in(defs, s, e1, fuel), bound_in(defs, s, e2, fuel)) {
                    assert(agree_on(o1, o2, names));
                }
            },
            _ => {},
        }
    }
}

// ---------------------------------------------------------------------------
// Dropping unused bindings
// ---------------------------------------------------------------------------

/// `k` is `s` with some bindings left out, in order, and no name of `names`
/// is bound by one left out.
pub open spec fn thinned(s: Seq<(Seq<char>, Term)>, k: Seq<(Seq<char>, Term)>, names: Seq<Seq<char>>) -> bool
    decreases s.len(),
{
    if s.len() == 0 {
        k.len() == 0
    } else {
        ||| (k.len() > 0 && k.last() == s.last() && thinned(s.drop_last(), k.drop_last(), names))
        ||| (!names.contains(s.last().0) && thinned(s.drop_last(), k, names))
    }
}

proof fn lemma_thinned_self(s: Seq<(Seq<char>, Term)>, names: Seq<Seq<char>>)
    ensures
        thinned(s, s, names),
    decreases s.len(),
{
    if s.len() > 0 {
        lemma_thinned_self(s.drop_last(), names);
    }
}

proof fn lemma_thinned_trans(
    a: Seq<(Seq<char>, Term)>,
    b: Seq<(Seq<char>, Term)>,
    c: Seq<(Seq<char>, Term)>,
    names: Seq<Seq<char>>,
)
    requires
        thinned(a, b, names),
        thinned(b, c, names),
    ensures
        thinned(a, c, names),
    decreases a.len(),
{
    if a.len() > 0 {
        if b.len() > 0 && b.last() == a.last() && thinned(a.drop_last(), b.drop_last(), names) {
            if c.len() > 0 && c.last() == b.last() && thinned(b.drop_last(), c.drop_last(), names) {
                lemma_thinned_trans(a.drop_last(), b.drop_last(), c.drop_last(), names);
            } else {
                lemma_thinned_trans(a.drop_last(), b.drop_last(), c, names);
            }
        } else {
            lemma_thinned_trans(a.drop_last(), b, c, names);
        }
    }
}

proof fn lemma_thinned_fewer_names(
    a: Seq<(Seq<char>, Term)>,
    c: Seq<(Seq<char>, Term)>,
    names: Seq<Seq<char>>,
    fewer: Seq<Seq<char>>,
)
    requires
        thinned(a, c, names),
        within(fewer, names),
    ensures
        thinned(a, c, fewer),
    decreases a.len(),
{
    if a.len() > 0 {
        if c.len() > 0 && c.last() == a.last() && thinned(a.drop_last(), c.drop_last(), names) {
            lemma_thinned_fewer_names(a.drop_last(), c.drop_last(), names, fewer);
        } else {
            lemma_thinned_fewer_names(a.drop_last(), c, names, fewer);
        }
    }
}

proof fn lemma_thinned_uses(a: Seq<(Seq<char>, Term)>, c: Seq<(Seq<char>, Term)>, names: Seq<Seq<char>>)
    requires
        thinned(a, c, names),
    ensures
        within(uses_bindings(c), uses_bindings(a)),
    decreases a.len(),
{
    broadcast use vstd::seq_lib::lemma_seq_concat_contains_all_elements;

    if a.len() > 0 {
        if c.len() > 0 && c.last() == a.last() && thinned(a.drop_last(), c.drop_last(), names) {
            lemma_thinned_uses(a.drop_last(), c.drop_last(), names);
        } else {
            lemma_thinned_uses(a.drop_last(), c, names);
        }
    }
}

proof fn lemma_keep_needed_thinned(s: Seq<(Seq<char>, Term)>, used: Seq<Seq<char>>)
    ensures
        thinned(s, keep_needed(s, used), used),
    decreases s.len(),
{
    if s.len() > 0 {
        lemma_keep_needed_thinned(s.drop_last(), used);
        let k = keep_needed(s, used);
        if used.contains(s.last().0) || !crate::optimize::droppable_term(s.last().1) {
            assert(k.drop_last() =~= keep_needed(s.drop_last(), used));
        }
    }
}

proof fn lemma_prune_thinned(kept: Seq<(Seq<char>, Term)>, body: Term)
    ensures
        thinned(kept, prune(kept, body), used_by(prune(kept, body), body)),
    decreases kept.len(),
{
    broadcast use vstd::seq_lib::lemma_seq_concat_contains_all_elements;

    let next = keep_needed(kept, used_by(kept, body));
    if next.len() < kept.len() {
        let r = prune(next, body);
        lemma_prune_thinned(next, body);
        lemma_keep_needed_thinned(kept, used_by(kept, body));
        lemma_thinned_uses(next, r, used_by(r, body));
        lemma_thinned_uses(kept, next, used_by(kept, body));
        lemma_thinned_fewer_names(kept, next, used_by(kept, body), used_by(r, body));
        lemma_thinned_trans(kept, next, r, used_by(r, body));
    } else {
        lemma_thinned_self(kept, used_by(kept, body));
    }
}

/// Binding fewer names, each left out one unread, gives a scope that agrees
/// on every name read.
proof fn lemma_thinned_scope(
    defs: Seq<DefTerm>,
    s: Seq<(Seq<char>, Term)>,
    k: Seq<(Seq<char>, Term)>,
    names: Seq<Seq<char>>,
    env: Map<Seq<char>, Value>,
    fuel: nat,
)
    requires
        thinned(s, k, names),
        within(uses_bindings(k), names),
        bound_in(defs, s, env, fuel) is Some,
    ensures
        bound_in(defs, k, env, fuel) is Some,
        agree_on(bound_in(defs, s, env, fuel).unwrap(), bound_in(defs, k, env, fuel).unwrap(), names),
    decreases s.len(),
{
    broadcast use vstd::seq_lib::lemma_seq_concat_contains_all_elements;

    if s.len() > 0 {
        let inner = bound_in(defs, s.drop_last(), env, fuel).unwrap();
        if k.len() > 0 && k.last() == s.last() && thinned(s.drop_last(), k.drop_last(), names) {
            lemma_within_concat(uses_bindings(k.drop_last()), uses(k.last().1), names);
            lemma_thinned_scope(defs, s.drop_last(), k.drop_last(), names, env, fuel);
            let thin = bound_in(defs, k.drop_last(), env, fuel).unwrap();
            lemma_agree_on_fewer(inner, thin, names, uses(s.last().1));
            lemma_agreeing_scopes(defs, s.last().1, inner, thin, fuel);
        } else {
            lemma_thinned_scope(defs, s.drop_last(), k, names, env, fuel);
        }
    }
}

/// Removing unused bindings never changes a value that was computed: a
/// binding disappears only when nothing reads its name, so every read sees
/// what it saw before.
pub proof fn lemma_dropped_keeps_value(defs: Seq<DefTerm>, t: Term, env: Map<Seq<char>, Value>, fuel: nat)
    requires
        evaluated(defs, t, env, fuel) is Some,
    ensures
        evaluated(defs, dropped(t), env, fuel) == evaluated(defs, t, env, fuel),
    decreases t,
{
    broadcast use vstd::seq_lib::lemma_seq_concat_contains_all_elements;

    match t {
        Term::Primitive { op, args } => {
            lemma_dropped_all_each(args);
            if args.len() == 2 {
                lemma_dropped_keeps_value(defs, args[0], env, fuel);
                lemma_dropped_keeps_value(defs, args[1], env, fuel);
            }
        },
        Term::Call { callee, args } => {
            lemma_dropped_all_keeps_values(defs, args, env, fuel);
        },
        Term::If { condition, then_branch, else_branch } => {
            lemma_dropped_keeps_value(defs, *condition, env, fuel);
            if let Some(Value::Num(c)) = evaluated(defs, *condition, env, fuel) {
                if c == 0 {
                    lemma_dropped_keeps_value(defs, *else_branch, env, fuel);
                } else {
                    lemma_dropped_keeps_value(defs, *then_branch, env, fuel);
                }
            }
        },
        Term::Let { bindings, body } => {
            let inner = bound_in(defs, bindings, env, fuel).unwrap();
            lemma_dropped_bindings_keep_values(defs, bindings, env, fuel);
            lemma_dropped_keeps_value(defs, *body, inner, fuel);
            let b = dropped(*body);
            let db = dropped_bindings(bindings);
            let k = prune(db, b);
            lemma_prune_thinned(db, b);
            lemma_within_concat(uses(b), uses_bindings(k), used_by(k, b));
            lemma_thinned_scope(defs, db, k, used_by(k, b), env, fuel);
            let thin = bound_in(defs, k, env, fuel).unwrap();
            lemma_agree_on_fewer(inner, thin, used_by(k, b), uses(b));
            lemma_agreeing_scopes(defs, b, inner, thin, fuel);
        },
        Term::Cons(h, tl) => {
            lemma_dropped_keeps_value(defs, *h, env, fuel);
            lemma_dropped_keeps_value(defs, *tl, env, fuel);
        },
        Term::Car(v) => lemma_dropped_keeps_value(defs, *v, env, fuel),
        Term::Cdr(v) => lemma_dropped_keeps_value(defs, *v, env, fuel),
        Term::Null(v) => lemma_dropped_keeps_value(defs, *v, env, fuel),
        _ => {},
    }
}

proof fn lemma_dropped_all_each(s: Seq<Term>)
    ensures
        dropped_all(s).len() == s.len(),
        forall|i: int| 0 <= i < s.len() ==> dropped_all(s)[i] == dropped(#[trigger] s[i]),
    decreases s.len(),
{
    if s.len() > 0 {
        lemma_dropped_all_each(s.drop_last());
        assert forall|i: int| 0 <= i < s.len() implies dropped_all(s)[i] == dropped(#[trigger] s[i]) by {
            if i < s.len() - 1 {
                assert(s.drop_last()[i] == s[i]);
            }
        }
    }
}

proof fn lemma_dropped_all_keeps_values(defs: Seq<DefTerm>, s: Seq<Term>, env: Map<Seq<char>, Value>, fuel: nat)
    requires
        evaluated_all(defs, s, env, fuel) is Some,
    ensures
        evaluated_all(defs, dropped_all(s), env, fuel) == evaluated_all(defs, s, env, fuel),
    decreases s,
{
    if s.len() > 0 {
        lemma_dropped_all_keeps_values(defs, s.drop_last(), env, fuel);
        lemma_dropped_keeps_value(defs, s.last(), env, fuel);
        assert(dropped_all(s).drop_last() =~= dropped_all(s.drop_last()));
    }
}

proof fn lemma_dropped_bindings_keep_values(
    defs: Seq<DefTerm>,
    s: Seq<(Seq<char>, Term)>,
    env: Map<Seq<char>, Value>,
    fuel: nat,
)
    requires
        bound_in(defs, s, env, fuel) is Some,
    ensures
        bound_in(defs, dropped_bindings(s), env, fuel) == bound_in(defs, s, env, fuel),
    decreases s,
{
    if s.len() > 0 {
        lemma_dropped_bindings_keep_values(defs, s.drop_last(), env, fuel);
        assert(dropped_bindings(s).drop_last() =~= dropped_bindings(s.drop_last()));
        let inner = bound_in(defs, s.drop_last(), env, fuel).unwrap();
        lemma_dropped_keeps_value(defs, s.last().1, inner, fuel);
    }
}

// ---------------------------------------------------------------------------
// Substituting literal bindings
// ---------------------------------------------------------------------------

/// The names bound by `s`, in order.
pub open spec fn bound_names(s: Seq<(Seq<char>, Term)>) -> Seq<Seq<char>>
    decreases s.len(),
{
    if s.len() == 0 {
        Seq::empty()
    } else {
        bound_names(s.drop_last()).push(s.last().0)
    }
}

/// No `let` in `t` binds a name already in scope: one of `scope`, one bound
/// by an enclosing `let`, or one bound earlier in its own `let`.
pub open spec fn unshadowed(t: Term, scope: Seq<Seq<char>>) -> bool
    decreases t,
{
    match t {
        Term::Let { bindings, body } => unshadowed_bindings(bindings, scope) && unshadowed(
            *body,
            scope + bound_names(bindings),
        ),
        Term::Primitive { args, .. } => unshadowed_all(args, scope),
        Term::Call { args, .. } => unshadowed_all(args, scope),
        Term::If { condition, then_branch, else_branch } => unshadowed(*condition, scope) && unshadowed(
            *then_branch,
            scope,
        ) && unshadowed(*else_branch, scope),
        Term::Cons(h, tl) => unshadowed(*h, scope) && unshadowed(*tl, scope),
        Term::Car(v) => unshadowed(*v, scope),
        Term::Cdr(v) => unshadowed(*v, scope),
        Term::Null(v) => unshadowed(*v, scope),
        _ => true,
    }
}

pub open spec fn unshadowed_all(s: Seq<Term>, scope: Seq<Seq<char>>) -> bool
    decreases s,
{
    s.len() == 0 || (unshadowed_all(s.drop_last(), scope) && unshadowed(s.last(), scope))
}

pub open spec fn unshadowed_bindings(s: Seq<(Seq<char>, Term)>, scope: Seq<Seq<char>>) -> bool
    decreases s,
{
    s.len() == 0 || {
        let before = scope + bound_names(s.drop_last());
        &&& unshadowed_bindings(s.drop_last(), scope)
        &&& !before.contains(s.last().0)
        &&& unshadowed(s.last().1, before)
    }
}

/// The value of a number or boolean literal.
pub open spec fn literal_value(t: Term) -> Value {
    match t {
        Term::Number(n) => Value::Num(n as int),
        Term::Bool(b) => flag(b),
        _ => Value::Nil,
    }
}

/// Every entry of `env` is a number or boolean literal the target can hold.
pub open spec fn literal_env(env: Env) -> bool {
    forall|i: int| 0 <= i < env.len() ==> is_scalar_literal(#[trigger] env[i].1) && literals_fit(env[i].1)
}

/// `e` with the literals of `env` bound on top, a later entry winning.
pub open spec fn overlay(e: Map<Seq<char>, Value>, env: Env) -> Map<Seq<char>, Value>
    decreases env.len(),
{
    if env.len() == 0 {
        e
    } else {
        overlay(e, env.drop_last()).insert(env.last().0, literal_value(env.last().1))
    }
}

proof fn lemma_literal_evaluates(defs: Seq<DefTerm>, t: Term, env: Map<Seq<char>, Value>, fuel: nat)
    requires
        is_scalar_literal(t),
        literals_fit(t),
    ensures
        evaluated(defs, t, env, fuel) == Some(literal_value(t)),
{
}

pub(crate) proof fn lemma_overlay_lookup(e: Map<Seq<char>, Value>, env: Env, n: Seq<char>)
    ensures
        lookup(env, n) is Some <==> bound_names(env).contains(n),
        lookup(env, n) matches Some(v) ==> overlay(e, env).contains_key(n) && overlay(e, env)[n] == literal_value(v),
        lookup(env, n) is None ==> overlay(e, env).contains_key(n) == e.contains_key(n) && (e.contains_key(n)
            ==> overlay(e, env)[n] == e[n]),
    decreases env.len(),
{
    broadcast use vstd::seq_lib::lemma_seq_contains_after_push;

    if env.len() > 0 {
        lemma_overlay_lookup(e, env.drop_last(), n);
    }
}

proof fn lemma_overlay_insert(a: Map<Seq<char>, Value>, env: Env, x: Seq<char>, v: Value)
    requires
        !bound_names(env).contains(x),
    ensures
        overlay(a.insert(x, v), env) == overlay(a, env).insert(x, v),
    decreases env.len(),
{
    broadcast use vstd::seq_lib::lemma_seq_contains_after_push;

    if env.len() > 0 {
        lemma_overlay_insert(a, env.drop_last(), x, v);
        assert(overlay(a.insert(x, v), env) =~= overlay(a, env).insert(x, v));
    }
}

proof fn lemma_overlay_concat(a: Map<Seq<char>, Value>, x: Env, y: Env)
    ensures
        overlay(a, x + y) == overlay(overlay(a, x), y),
    decreases y.len(),
{
    if y.len() == 0 {
        assert(x + y =~= x);
    } else {
        assert((x + y).drop_last() =~= x + y.drop_last());
        lemma_overlay_concat(a, x, y.drop_last());
    }
}

proof fn lemma_bound_names_concat(x: Seq<(Seq<char>, Term)>, y: Seq<(Seq<char>, Term)>)
    ensures
        bound_names(x + y) == bound_names(x) + bound_names(y),
    decreases y.len(),
{
    if y.len() == 0 {
        assert(x + y =~= x);
        assert(bound_names(x) + bound_names(y) =~= bound_names(x));
    } else {
        assert((x + y).drop_last() =~= x + y.drop_last());
        lemma_bound_names_concat(x, y.drop_last());
        assert(bound_names(x) + bound_names(y) =~= (bound_names(x) + bound_names(y.drop_last())).push(y.last().0));
    }
}

proof fn lemma_literal_env_concat(x: Env, y: Env)
    requires
        literal_env(x),
        literal_env(y),
    ensures
        literal_env(x + y),
{
    assert forall|i: int| 0 <= i < (x + y).len() implies is_scalar_literal(#[trigger] (x + y)[i].1) && literals_fit(
        (x + y)[i].1,
    ) by {
        if i < x.len() {
            assert((x + y)[i] == x[i]);
        } else {
            assert((x + y)[i] == y[i - x.len()]);
        }
    }
}

/// A smaller scope rules out fewer `let`s.
pub(crate) proof fn lemma_unshadowed_fewer(t: Term, scope: Seq<Seq<char>>, fewer: Seq<Seq<char>>)
    requires
        unshadowed(t, scope),
        within(fewer, scope),
    ensures
        unshadowed(t, fewer),
    decreases t,
{
    broadcast use vstd::seq_lib::lemma_seq_concat_contains_all_elements;

    match t {
        Term::Let { bindings, body } => {
            lemma_unshadowed_bindings_fewer(bindings, scope, fewer);
            lemma_unshadowed_fewer(*body, scope + bound_names(bindings), fewer + bound_names(bindings));
        },
        Term::Primitive { args, .. } => lemma_unshadowed_all_fewer(args, scope, fewer),
        Term::Call { args, .. } => lemma_unshadowed_all_fewer(args, scope, fewer),
        Term::If { condition, then_branch, else_branch } => {
            lemma_unshadowed_fewer(*condition, scope, fewer);
            lemma_unshadowed_fewer(*then_branch, scope, fewer);
            lemma_unshadowed_fewer(*else_branch, scope, fewer);
        },
        Term::Cons(h, tl) => {
            lemma_unshadowed_fewer(*h, scope, fewer);
            lemma_unshadowed_fewer(*tl, scope, fewer);
        },
        Term::Car(v) => lemma_unshadowed_fewer(*v, scope, fewer),
        Term::Cdr(v) => lemma_unshadowed_fewer(*v, scope, fewer),
        Term::Null(v) => lemma_unshadowed_fewer(*v, scope, fewer),
        _ => {},
    }
}

proof fn lemma_unshadowed_all_fewer(s: Seq<Term>, scope: Seq<Seq<char>>, fewer: Seq<Seq<char>>)
    requires
        unshadowed_all(s, scope),
        within(fewer, scope),
    ensures
        unshadowed_all(s, fewer),
    decreases s,
{
    if s.len() > 0 {
        lemma_unshadowed_all_fewer(s.drop_last(), scope, fewer);
        lemma_unshadowed_fewer(s.last(), scope, fewer);
    }
}

proof fn lemma_unshadowed_bindings_fewer(s: Seq<(Seq<char>, Term)>, scope: Seq<Seq<char>>, fewer: Seq<Seq<char>>)
    requires
        unshadowed_bindings(s, scope),
        within(fewer, scope),
    ensures
        unshadowed_bindings(s, fewer),
    decreases s,
{
    broadcast use vstd::seq_lib::lemma_seq_concat_contains_all_elements;

    if s.len() > 0 {
        lemma_unshadowed_bindings_fewer(s.drop_last(), scope, fewer);
        let before = scope + bound_names(s.drop_last());
        let less = fewer + bound_names(s.drop_last());
        assert(within(less, before));
        lemma_unshadowed_fewer(s.last().1, before, less);
    }
}

proof fn lemma_replaced_all_each(s: Seq<Term>, lits: Env)
    ensures
        replaced_all(s, lits).len() == s.len(),
        forall|i: int| 0 <= i < s.len() ==> replaced_all(s, lits)[i] == replaced(#[trigger] s[i], lits),
    decreases s.len(),
{
    if s.len() > 0 {
        lemma_replaced_all_each(s.drop_last(), lits);
        assert forall|i: int| 0 <= i < s.len() implies replaced_all(s, lits)[i] == replaced(#[trigger] s[i], lits) by {
            if i < s.len() - 1 {
                assert(s.drop_last()[i] == s[i]);
            }
        }
    }
}

/// Replacing variables by the literals bound to them gives the value the
/// expression has with those literals in scope, provided no `let` inside
/// rebinds one of their names.
proof fn lemma_replaced_keeps_value(
    defs: Seq<DefTerm>,
    t: Term,
    lits: Env,
    scope: Seq<Seq<char>>,
    e: Map<Seq<char>, Value>,
    fuel: nat,
)
    requires
        literal_env(lits),
        within(bound_names(lits), scope),
        unshadowed(t, scope),
    ensures
        evaluated(defs, replaced(t, lits), e, fuel) == evaluated(defs, t, overlay(e, lits), fuel),
        unshadowed(replaced(t, lits), scope),
        literals_fit(t) ==> literals_fit(replaced(t, lits)),
    decreases t,
{
    match t {
        Term::Var(n) => {
            lemma_overlay_lookup(e, lits, n);
            if let Some(v) = lookup(lits, n) {
                lemma_lookup_in_env(lits, n);
                lemma_literal_evaluates(defs, v, e, fuel);
            }
        },
        Term::Primitive { op, args } => {
            lemma_replaced_all_keeps_values(defs, args, lits, scope, e, fuel);
            lemma_replaced_all_each(args, lits);
            if args.len() == 2 {
                lemma_unshadowed_each(args, scope);
                lemma_replaced_keeps_value(defs, args[0], lits, scope, e, fuel);
                lemma_replaced_keeps_value(defs, args[1], lits, scope, e, fuel);
            }
        },
        Term::Call { callee, args } => {
            lemma_replaced_all_keeps_values(defs, args, lits, scope, e, fuel);
        },
        Term::If { condition, then_branch, else_branch } => {
            lemma_replaced_keeps_value(defs, *condition, lits, scope, e, fuel);
            lemma_replaced_keeps_value(defs, *then_branch, lits, scope, e, fuel);
            lemma_replaced_keeps_value(defs, *else_branch, lits, scope, e, fuel);
        },
        Term::Let { bindings, body } => {
            lemma_replaced_bindings_keep_values(defs, bindings, lits, scope, e, fuel);
            let inner_scope = scope + bound_names(bindings);
            assert(within(bound_names(lits), inner_scope)) by {
                broadcast use vstd::seq_lib::lemma_seq_concat_contains_all_elements;
            }
            match bound_in(defs, replaced_bindings(bindings, lits), e, fuel) {
                Some(a) => lemma_replaced_keeps_value(defs, *body, lits, inner_scope, a, fuel),
                None => lemma_replaced_keeps_value(defs, *body, lits, inner_scope, e, fuel),
            }
        },
        Term::Cons(h, tl) => {
            lemma_replaced_keeps_value(defs, *h, lits, scope, e, fuel);
            lemma_replaced_keeps_value(defs, *tl, lits, scope, e, fuel);
        },
        Term::Car(v) => lemma_replaced_keeps_value(defs, *v, lits, scope, e, fuel),
        Term::Cdr(v) => lemma_replaced_keeps_value(defs, *v, lits, scope, e, fuel),
        Term::Null(v) => lemma_replaced_keeps_value(defs, *v, lits, scope, e, fuel),
        _ => {},
    }
}

proof fn lemma_lookup_in_env(env: Env, n: Seq<char>)
    requires
        lookup(env, n) is Some,
    ensures
        exists|i: int| 0 <= i < env.len() && env[i].1 == lookup(env, n).unwrap(),
    decreases env.len(),
{
    if env.last().0 != n {
        lemma_lookup_in_env(env.drop_last(), n);
        let i = choose|i: int| 0 <= i < env.drop_last().len() && env.drop_last()[i].1 == lookup(env, n).unwrap();
        assert(env[i] == env.drop_last()[i]);
    } else {
        assert(env[env.len() - 1] == env.last());
    }
}

pub(crate) proof fn lemma_unshadowed_each(s: Seq<Term>, scope: Seq<Seq<char>>)
    requires
        unshadowed_all(s, scope),
    ensures
        forall|i: int| 0 <= i < s.len() ==> unshadowed(#[trigger] s[i], scope),
    decreases s.len(),
{
    if s.len() > 0 {
        lemma_unshadowed_each(s.drop_last(), scope);
        assert forall|i: int| 0 <= i < s.len() implies unshadowed(#[trigger] s[i], scope) by {
            if i < s.len() - 1 {
                assert(s.drop_last()[i] == s[i]);
            }
        }
    }
}

proof fn lemma_replaced_all_keeps_values(
    defs: Seq<DefTerm>,
    s: Seq<Term>,
    lits: Env,
    scope: Seq<Seq<char>>,
    e: Map<Seq<char>, Value>,
    fuel: nat,
)
    requires
        literal_env(lits),
        within(bound_names(lits), scope),
        unshadowed_all(s, scope),
    ensures
        evaluated_all(defs, replaced_all(s, lits), e, fuel) == evaluated_all(defs, s, overlay(e, lits), fuel),
        unshadowed_all(replaced_all(s, lits), scope),
        literals_fit_all(s) ==> literals_fit_all(replaced_all(s, lits)),
    decreases s,
{
    if s.len() > 0 {
        lemma_replaced_all_keeps_values(defs, s.drop_last(), lits, scope, e, fuel);
        lemma_replaced_keeps_value(defs, s.last(), lits, scope, e, fuel);
        assert(replaced_all(s, lits).drop_last() =~= replaced_all(s.drop_last(), lits));
    }
}

proof fn lemma_replaced_bindings_keep_values(
    defs: Seq<DefTerm>,
    s: Seq<(Seq<char>, Term)>,
    lits: Env,
    scope: Seq<Seq<char>>,
    e: Map<Seq<char>, Value>,
    fuel: nat,
)
    requires
        literal_env(lits),
        within(bound_names(lits), scope),
        unshadowed_bindings(s, scope),
    ensures
        bound_in(defs, replaced_bindings(s, lits), e, fuel) is Some <==> bound_in(
            defs,
            s,
            overlay(e, lits),
            fuel,
        ) is Some,
        bound_in(defs, replaced_bindings(s, lits), e, fuel) is Some ==> bound_in(defs, s, overlay(e, lits), fuel).unwrap()
            == overlay(bound_in(defs, replaced_bindings(s, lits), e, fuel).unwrap(), lits),
        bound_names(replaced_bindings(s, lits)) == bound_names(s),
        unshadowed_bindings(replaced_bindings(s, lits), scope),
        literals_fit_bindings(s) ==> literals_fit_bindings(replaced_bindings(s, lits)),
    decreases s,
{
    broadcast use vstd::seq_lib::lemma_seq_concat_contains_all_elements;

    if s.len() > 0 {
        lemma_replaced_bindings_keep_values(defs, s.drop_last(), lits, scope, e, fuel);
        let r = replaced_bindings(s, lits);
        assert(r.drop_last() =~= replaced_bindings(s.drop_last(), lits));
        let before = scope + bound_names(s.drop_last());
        assert(within(bound_names(lits), before));
        let x = s.last().0;
        match bound_in(defs, replaced_bindings(s.drop_last(), lits), e, fuel) {
            Some(a) => {
                lemma_replaced_keeps_value(defs, s.last().1, lits, before, a, fuel);
                if let Some(v) = evaluated(defs, s.last().1, overlay(a, lits), fuel) {
                    lemma_overlay_insert(a, lits, x, v);
                }
            },
            None => lemma_replaced_keeps_value(defs, s.last().1, lits, before, e, fuel),
        }
    }
}

proof fn lemma_propagated_all_each(s: Seq<Term>, env: Env)
    ensures
        propagated_all(s, env).len() == s.len(),
        forall|i: int| 0 <= i < s.len() ==> propagated_all(s, env)[i] == propagated(#[trigger] s[i], env),
    decreases s.len(),
{
    if s.len() > 0 {
        lemma_propagated_all_each(s.drop_last(), env);
        assert forall|i: int| 0 <= i < s.len() implies propagated_all(s, env)[i] == propagated(#[trigger] s[i], env) by {
            if i < s.len() - 1 {
                assert(s.drop_last()[i] == s[i]);
            }
        }
    }
}

pub(crate) proof fn lemma_literals_fit_each_binding(s: Seq<(Seq<char>, Term)>)
    requires
        literals_fit_bindings(s),
    ensures
        forall|i: int| 0 <= i < s.len() ==> literals_fit(#[trigger] s[i].1),
    decreases s.len(),
{
    if s.len() > 0 {
        lemma_literals_fit_each_binding(s.drop_last());
        assert forall|i: int| 0 <= i < s.len() implies literals_fit(#[trigger] s[i].1) by {
            if i < s.len() - 1 {
                assert(s.drop_last()[i] == s[i]);
            }
        }
    }
}

/// Substituting the literal bindings of `env` gives the value the expression
/// has with those literals in scope.
proof fn lemma_propagated_in_scope(
    defs: Seq<DefTerm>,
    t: Term,
    env: Env,
    scope: Seq<Seq<char>>,
    e: Map<Seq<char>, Value>,
    fuel: nat,
)
    requires
        literal_env(env),
        within(bound_names(env), scope),
        unshadowed(t, scope),
        literals_fit(t),
    ensures
        evaluated(defs, propagated(t, env), e, fuel) == evaluated(defs, t, overlay(e, env), fuel),
        unshadowed(propagated(t, env), scope),
        literals_fit(propagated(t, env)),
    decreases t,
{
    broadcast use vstd::seq_lib::lemma_seq_concat_contains_all_elements;

    match t {
        Term::Var(n) => {
            lemma_overlay_lookup(e, env, n);
            if let Some(v) = lookup(env, n) {
                lemma_lookup_in_env(env, n);
                lemma_literal_evaluates(defs, v, e, fuel);
            }
        },
        Term::Primitive { op, args } => {
            lemma_propagated_all_in_scope(defs, args, env, scope, e, fuel);
            lemma_propagated_all_each(args, env);
            if args.len() == 2 {
                lemma_unshadowed_each(args, scope);
                lemma_literals_fit_each(args);
                lemma_propagated_in_scope(defs, args[0], env, scope, e, fuel);
                lemma_propagated_in_scope(defs, args[1], env, scope, e, fuel);
            }
        },
        Term::Call { callee, args } => {
            lemma_propagated_all_in_scope(defs, args, env, scope, e, fuel);
        },
        Term::If { condition, then_branch, else_branch } => {
            lemma_propagated_in_scope(defs, *condition, env, scope, e, fuel);
            lemma_propagated_in_scope(defs, *then_branch, env, scope, e, fuel);
            lemma_propagated_in_scope(defs, *else_branch, env, scope, e, fuel);
        },
        Term::Let { bindings, body } => {
            let (lits, kept) = propagated_bindings(bindings, env);
            lemma_propagated_bindings_in_scope(defs, bindings, env, scope, e, fuel);
            let inner_scope = scope + bound_names(bindings);
            lemma_literal_env_concat(lits, env);
            lemma_bound_names_concat(lits, env);
            assert(within(bound_names(lits + env), inner_scope));
            let a = match bound_in(defs, kept, e, fuel) {
                Some(a) => a,
                None => e,
            };
            lemma_propagated_in_scope(defs, *body, lits + env, inner_scope, a, fuel);
            let b = propagated(*body, lits + env);
            assert(within(scope + bound_names(kept), inner_scope));
            lemma_unshadowed_fewer(b, inner_scope, scope + bound_names(kept));
            if kept.len() == 0 {
                assert(within(scope, inner_scope));
                lemma_unshadowed_fewer(b, inner_scope, scope);
            }
        },
        Term::Cons(h, tl) => {
            lemma_propagated_in_scope(defs, *h, env, scope, e, fuel);
            lemma_propagated_in_scope(defs, *tl, env, scope, e, fuel);
        },
        Term::Car(v) => lemma_propagated_in_scope(defs, *v, env, scope, e, fuel),
        Term::Cdr(v) => lemma_propagated_in_scope(defs, *v, env, scope, e, fuel),
        Term::Null(v) => lemma_propagated_in_scope(defs, *v, env, scope, e, fuel),
        _ => {},
    }
}

proof fn lemma_propagated_all_in_scope(
    defs: Seq<DefTerm>,
    s: Seq<Term>,
    env: Env,
    scope: Seq<Seq<char>>,
    e: Map<Seq<char>, Value>,
    fuel: nat,
)
    requires
        literal_env(env),
        within(bound_names(env), scope),
        unshadowed_all(s, scope),
        literals_fit_all(s),
    ensures
        evaluated_all(defs, propagated_all(s, env), e, fuel) == evaluated_all(defs, s, overlay(e, env), fuel),
        unshadowed_all(propagated_all(s, env), scope),
        literals_fit_all(propagated_all(s, env)),
    decreases s,
{
    if s.len() > 0 {
        lemma_propagated_all_in_scope(defs, s.drop_last(), env, scope, e, fuel);
        lemma_propagated_in_scope(defs, s.last(), env, scope, e, fuel);
        assert(propagated_all(s, env).drop_last() =~= propagated_all(s.drop_last(), env));
    }
}

/// One `let`'s bindings with the literal ones taken out: the kept bindings
/// bind, on top of `e`, what all of them bind on top of `e` with the outer
/// literals, once the taken-out literals are added back.
proof fn lemma_propagated_bindings_in_scope(
    defs: Seq<DefTerm>,
    s: Seq<(Seq<char>, Term)>,
    env: Env,
    scope: Seq<Seq<char>>,
    e: Map<Seq<char>, Value>,
    fuel: nat,
)
    requires
        literal_env(env),
        within(bound_names(env), scope),
        unshadowed_bindings(s, scope),
        literals_fit_bindings(s),
    ensures
        ({
            let (lits, kept) = propagated_bindings(s, env);
            &&& literal_env(lits)
            &&& within(bound_names(lits), bound_names(s))
            &&& within(bound_names(kept), bound_names(s))
            &&& unshadowed_bindings(kept, scope)
            &&& literals_fit_bindings(kept)
            &&& (bound_in(defs, kept, e, fuel) is Some <==> bound_in(defs, s, overlay(e, env), fuel) is Some)
            &&& (bound_in(defs, kept, e, fuel) is Some ==> bound_in(defs, s, overlay(e, env), fuel).unwrap()
                == overlay(bound_in(defs, kept, e, fuel).unwrap(), lits + env))
        }),
    decreases s,
{
    broadcast use vstd::seq_lib::lemma_seq_concat_contains_all_elements;
    broadcast use vstd::seq_lib::lemma_seq_contains_after_push;

    if s.len() == 0 {
        assert(Seq::<(Seq<char>, Term)>::empty() + env =~= env);
    } else {
        let front = s.drop_last();
        let (lits0, kept0) = propagated_bindings(front, env);
        lemma_propagated_bindings_in_scope(defs, front, env, scope, e, fuel);
        let x = s.last().0;
        let value = s.last().1;
        let before = scope + bound_names(front);
        assert(within(bound_names(env), before));
        assert(within(bound_names(lits0), before));
        lemma_literals_fit_each_binding(s);
        assert(literals_fit(value)) by {
            assert(s[s.len() - 1] == s.last());
        }
        let pv = propagated(value, env);
        let v = replaced(pv, lits0);
        let a0 = match bound_in(defs, kept0, e, fuel) {
            Some(a) => a,
            None => e,
        };
        lemma_propagated_in_scope(defs, value, env, before, overlay(a0, lits0), fuel);
        lemma_replaced_keeps_value(defs, pv, lits0, before, a0, fuel);
        lemma_overlay_concat(a0, lits0, env);
        assert(!bound_names(env).contains(x));
        assert(!bound_names(lits0).contains(x));
        assert(!bound_names(kept0).contains(x));
        assert(within(scope + bound_names(kept0), before));
        lemma_unshadowed_fewer(v, before, scope + bound_names(kept0));
        lemma_bound_names_concat(lits0, env);
        if is_scalar_literal(v) {
            let lits = lits0.push((x, v));
            assert(lits.drop_last() =~= lits0);
            assert(literal_env(lits)) by {
                assert forall|i: int| 0 <= i < lits.len() implies is_scalar_literal(#[trigger] lits[i].1) && literals_fit(
                    lits[i].1,
                ) by {
                    if i < lits0.len() {
                        assert(lits[i] == lits0[i]);
                    }
                }
            }
            if let Some(a) = bound_in(defs, kept0, e, fuel) {
                lemma_literal_evaluates(defs, v, a, fuel);
                lemma_overlay_concat(a, lits, env);
                lemma_overlay_insert(overlay(a, lits0), env, x, literal_value(v));
            }
        } else {
            let kept = kept0.push((x, v));
            assert(kept.drop_last() =~= kept0);
            if let Some(a) = bound_in(defs, kept0, e, fuel) {
                if let Some(w) = evaluated(defs, v, a, fuel) {
                    lemma_overlay_insert(a, lits0 + env, x, w);
                }
            }
        }
    }
}

/// Substituting literal `let` bindings into their uses never changes what an
/// expression computes, provided no `let` in it rebinds a name already in
/// scope.
pub proof fn lemma_propagated_keeps_value(defs: Seq<DefTerm>, t: Term, env: Map<Seq<char>, Value>, fuel: nat)
    requires
        literals_fit(t),
        unshadowed(t, Seq::empty()),
    ensures
        evaluated(defs, propagated(t, Seq::empty()), env, fuel) == evaluated(defs, t, env, fuel),
        literals_fit(propagated(t, Seq::empty())),
        unshadowed(propagated(t, Seq::empty()), Seq::empty()),
{
    let empty: Env = Seq::empty();
    assert(bound_names(empty) =~= Seq::<Seq<char>>::empty());
    lemma_propagated_in_scope(defs, t, empty, Seq::empty(), env, fuel);
}

// ---------------------------------------------------------------------------
// Settling
// ---------------------------------------------------------------------------

proof fn lemma_simplified_unshadowed(t: Term, scope: Seq<Seq<char>>)
    requires
        unshadowed(t, scope),
    ensures
        unshadowed(simplified(t), scope),
    decreases t,
{
    match t {
        Term::Primitive { op, args } => {
            lemma_simplified_all_unshadowed(args, scope);
        },
        Term::Call { args, .. } => lemma_simplified_all_unshadowed(args, scope),
        Term::If { condition, then_branch, else_branch } => {
            lemma_simplified_unshadowed(*condition, scope);
            lemma_simplified_unshadowed(*then_branch, scope);
            lemma_simplified_unshadowed(*else_branch, scope);
        },
        Term::Let { bindings, body } => {
            lemma_simplified_bindings_unshadowed(bindings, scope);
            lemma_simplified_unshadowed(*body, scope + bound_names(bindings));
        },
        Term::Cons(h, tl) => {
            lemma_simplified_unshadowed(*h, scope);
            lemma_simplified_unshadowed(*tl, scope);
        },
        Term::Car(v) => lemma_simplified_unshadowed(*v, scope),
        Term::Cdr(v) => lemma_simplified_unshadowed(*v, scope),
        Term::Null(v) => lemma_simplified_unshadowed(*v, scope),
        _ => {},
    }
}

proof fn lemma_simplified_all_unshadowed(s: Seq<Term>, scope: Seq<Seq<char>>)
    requires
        unshadowed_all(s, scope),
    ensures
        unshadowed_all(simplified_all(s), scope),
    decreases s,
{
    if s.len() > 0 {
        lemma_simplified_all_unshadowed(s.drop_last(), scope);
        lemma_simplified_unshadowed(s.last(), scope);
        assert(simplified_all(s).drop_last() =~= simplified_all(s.drop_last()));
    }
}

proof fn lemma_simplified_bindings_unshadowed(s: Seq<(Seq<char>, Term)>, scope: Seq<Seq<char>>)
    requires
        unshadowed_bindings(s, scope),
    ensures
        unshadowed_bindings(simplified_bindings(s), scope),
        bound_names(simplified_bindings(s)) == bound_names(s),
    decreases s,
{
    if s.len() > 0 {
        lemma_simplified_bindings_unshadowed(s.drop_last(), scope);
        assert(simplified_bindings(s).drop_last() =~= simplified_bindings(s.drop_last()));
        lemma_simplified_unshadowed(s.last().1, scope + bound_names(s.drop_last()));
    }
}

proof fn lemma_thinned_names(s: Seq<(Seq<char>, Term)>, k: Seq<(Seq<char>, Term)>, names: Seq<Seq<char>>)
    requires
        thinned(s, k, names),
    ensures
        within(bound_names(k), bound_names(s)),
    decreases s.len(),
{
    broadcast use vstd::seq_lib::lemma_seq_contains_after_push;

    if s.len() > 0 {
        if k.len() > 0 && k.last() == s.last() && thinned(s.drop_last(), k.drop_last(), names) {
            lemma_thinned_names(s.drop_last(), k.drop_last(), names);
        } else {
            lemma_thinned_names(s.drop_last(), k, names);
        }
    }
}

proof fn lemma_thinned_keeps_shape(
    s: Seq<(Seq<char>, Term)>,
    k: Seq<(Seq<char>, Term)>,
    names: Seq<Seq<char>>,
    scope: Seq<Seq<char>>,
)
    requires
        thinned(s, k, names),
        unshadowed_bindings(s, scope),
        literals_fit_bindings(s),
    ensures
        unshadowed_bindings(k, scope),
        literals_fit_bindings(k),
    decreases s.len(),
{
    broadcast use vstd::seq_lib::lemma_seq_concat_contains_all_elements;

    if s.len() > 0 {
        if k.len() > 0 && k.last() == s.last() && thinned(s.drop_last(), k.drop_last(), names) {
            lemma_thinned_keeps_shape(s.drop_last(), k.drop_last(), names, scope);
            lemma_thinned_names(s.drop_last(), k.drop_last(), names);
            let before = scope + bound_names(s.drop_last());
            let fewer = scope + bound_names(k.drop_last());
            assert(within(fewer, before));
            lemma_unshadowed_fewer(s.last().1, before, fewer);
        } else {
            lemma_thinned_keeps_shape(s.drop_last(), k, names, scope);
        }
    }
}

proof fn lemma_dropped_keeps_shape(t: Term, scope: Seq<Seq<char>>)
    requires
        unshadowed(t, scope),
        literals_fit(t),
    ensures
        unshadowed(dropped(t), scope),
        literals_fit(dropped(t)),
    decreases t,
{
    broadcast use vstd::seq_lib::lemma_seq_concat_contains_all_elements;

    match t {
        Term::Primitive { op, args } => lemma_dropped_all_keeps_shape(args, scope),
        Term::Call { args, .. } => lemma_dropped_all_keeps_shape(args, scope),
        Term::If { condition, then_branch, else_branch } => {
            lemma_dropped_keeps_shape(*condition, scope);
            lemma_dropped_keeps_shape(*then_branch, scope);
            lemma_dropped_keeps_shape(*else_branch, scope);
        },
        Term::Let { bindings, body } => {
            let inner = scope + bound_names(bindings);
            lemma_dropped_bindings_keep_shape(bindings, scope);
            lemma_dropped_keeps_shape(*body, inner);
            let b = dropped(*body);
            let db = dropped_bindings(bindings);
            let k = prune(db, b);
            lemma_prune_thinned(db, b);
            lemma_thinned_keeps_shape(db, k, used_by(k, b), scope);
            lemma_thinned_names(db, k, used_by(k, b));
            assert(within(scope + bound_names(k), inner));
            lemma_unshadowed_fewer(b, inner, scope + bound_names(k));
            assert(within(scope, inner));
            lemma_unshadowed_fewer(b, inner, scope);
        },
        Term::Cons(h, tl) => {
            lemma_dropped_keeps_shape(*h, scope);
            lemma_dropped_keeps_shape(*tl, scope);
        },
        Term::Car(v) => lemma_dropped_keeps_shape(*v, scope),
        Term::Cdr(v) => lemma_dropped_keeps_shape(*v, scope),
        Term::Null(v) => lemma_dropped_keeps_shape(*v, scope),
        _ => {},
    }
}

proof fn lemma_dropped_all_keeps_shape(s: Seq<Term>, scope: Seq<Seq<char>>)
    requires
        unshadowed_all(s, scope),
        literals_fit_all(s),
    ensures
        unshadowed_all(dropped_all(s), scope),
        literals_fit_all(dropped_all(s)),
    decreases s,
{
    if s.len() > 0 {
        lemma_dropped_all_keeps_shape(s.drop_last(), scope);
        lemma_dropped_keeps_shape(s.last(), scope);
        assert(dropped_all(s).drop_last() =~= dropped_all(s.drop_last()));
    }
}

proof fn lemma_dropped_bindings_keep_shape(s: Seq<(Seq<char>, Term)>, scope: Seq<Seq<char>>)
    requires
        unshadowed_bindings(s, scope),
        literals_fit_bindings(s),
    ensures
        unshadowed_bindings(dropped_bindings(s), scope),
        literals_fit_bindings(dropped_bindings(s)),
        bound_names(dropped_bindings(s)) == bound_names(s),
    decreases s,
{
    if s.len() > 0 {
        lemma_dropped_bindings_keep_shape(s.drop_last(), scope);
        assert(dropped_bindings(s).drop_last() =~= dropped_bindings(s.drop_last()));
        lemma_dropped_keeps_shape(s.last().1, scope + bound_names(s.drop_last()));
    }
}

/// Settling (literal propagation, dropping unused bindings and folding,
/// repeated) never changes a value that was computed, for an expression
/// whose literals fit the target and in which no `let` rebinds a name
/// already in scope.
pub proof fn lemma_settled_keeps_value(
    defs: Seq<DefTerm>,
    t: Term,
    propagate: bool,
    rounds: nat,
    env: Map<Seq<char>, Value>,
    fuel: nat,
)
    requires
        literals_fit(t),
        unshadowed(t, Seq::empty()),
        evaluated(defs, t, env, fuel) is Some,
    ensures
        evaluated(defs, settled(t, propagate, rounds), env, fuel) == evaluated(defs, t, env, fuel),
    decreases rounds,
{
    if rounds > 0 {
        let before = if propagate {
            let p = propagated(t, Seq::empty());
            lemma_propagated_keeps_value(defs, t, env, fuel);
            lemma_dropped_keeps_value(defs, p, env, fuel);
            lemma_dropped_keeps_shape(p, Seq::empty());
            dropped(p)
        } else {
            t
        };
        lemma_simplified_keeps_value(defs, before, env, fuel);
        lemma_simplified_unshadowed(before, Seq::empty());
        let next = settle_step(t, propagate);
        if next != t {
            lemma_settled_keeps_value(defs, next, propagate, (rounds - 1) as nat, env, fuel);
        }
    }
}

// ---------------------------------------------------------------------------
// What lowering produces
// ---------------------------------------------------------------------------

pub(crate) proof fn lemma_local_name_injective(a: nat, x: Seq<char>, b: nat, y: Seq<char>)
    requires
        local_name(a, x) == local_name(b, y),
    ensures
        a == b,
{
    let p = "schemeLocal"@;
    reveal_strlit("schemeLocal");
    reveal_strlit("_");
    lemma_decimal_digits(a);
    lemma_decimal_digits(b);
    let da = decimal(a);
    let db = decimal(b);
    let l = local_name(a, x);
    assert(l == p + da + "_"@ + x);
    assert(local_name(b, y) == p + db + "_"@ + y);
    if da.len() < db.len() {
        assert(l[11 + da.len() as int] == '_');
        assert(l[11 + da.len() as int] == db[da.len() as int]);
        assert(crate::text::is_digit(db[da.len() as int]));
    } else if db.len() < da.len() {
        assert(l[11 + db.len() as int] == '_');
        assert(l[11 + db.len() as int] == da[db.len() as int]);
        assert(crate::text::is_digit(da[db.len() as int]));
    } else {
        assert(l.subrange(11, 11 + da.len() as int) =~= da);
        assert(l.subrange(11, 11 + db.len() as int) =~= db);
    }
}

/// No name of `names` is a local numbered from `lo` up to `hi`.
pub open spec fn avoids_locals(names: Seq<Seq<char>>, lo: nat, hi: nat) -> bool {
    forall|k: nat, x: Seq<char>| lo <= k < hi ==> !names.contains(#[trigger] local_name(k, x))
}

pub(crate) proof fn lemma_bind_params_names(params: Seq<Seq<char>>, scope: Renaming, n: nat)
    ensures
        bind_params(params, scope, n).0.len() == params.len(),
        bind_params(params, scope, n).2 == n + params.len(),
        forall|i: int| 0 <= i < params.len() ==> bind_params(params, scope, n).0[i] == local_name(
            (n + i) as nat,
            #[trigger] params[i],
        ),
    decreases params.len(),
{
    if params.len() > 0 {
        lemma_bind_params_names(params.drop_last(), scope, n);
        assert forall|i: int| 0 <= i < params.len() implies bind_params(params, scope, n).0[i] == local_name(
            (n + i) as nat,
            #[trigger] params[i],
        ) by {
            if i < params.len() - 1 {
                assert(params.drop_last()[i] == params[i]);
            }
        }
    }
}

pub(crate) proof fn lemma_bind_locals_names(values: Seq<(Seq<char>, Term)>, scope: Renaming, n: nat)
    ensures
        bind_locals(values, scope, n).0.len() == values.len(),
        bind_locals(values, scope, n).2 == n + values.len(),
        forall|i: int|
            0 <= i < values.len() ==> #[trigger] bind_locals(values, scope, n).0[i] == (
                local_name((n + i) as nat, values[i].0),
                values[i].1,
            ),
    decreases values.len(),
{
    if values.len() > 0 {
        lemma_bind_locals_names(values.drop_last(), scope, n);
        assert forall|i: int|
            0 <= i < values.len() implies #[trigger] bind_locals(values, scope, n).0[i] == (
                local_name((n + i) as nat, values[i].0),
                values[i].1,
            ) by {
            if i < values.len() - 1 {
                assert(values.drop_last()[i] == values[i]);
            }
        }
    }
}

pub(crate) proof fn lemma_bound_names_index(bs: Seq<(Seq<char>, Term)>)
    ensures
        bound_names(bs).len() == bs.len(),
        forall|i: int| 0 <= i < bs.len() ==> #[trigger] bound_names(bs)[i] == bs[i].0,
    decreases bs.len(),
{
    if bs.len() > 0 {
        lemma_bound_names_index(bs.drop_last());
        assert forall|i: int| 0 <= i < bs.len() implies #[trigger] bound_names(bs)[i] == bs[i].0 by {
            if i < bs.len() - 1 {
                assert(bs.drop_last()[i] == bs[i]);
            }
        }
    }
}

/// Bindings whose names are fresh locals numbered from `base` on: a name
/// of `names` avoiding those locals, with the bindings before, avoids the
/// next one.
proof fn lemma_fresh_bindings(
    bs: Seq<(Seq<char>, Term)>,
    names: Seq<Seq<char>>,
    base: nat,
    scheme_names: Seq<Seq<char>>,
)
    requires
        avoids_locals(names, base, base + bs.len()),
        scheme_names.len() == bs.len(),
        forall|i: int| 0 <= i < bs.len() ==> #[trigger] bs[i].0 == local_name((base + i) as nat, scheme_names[i]),
        forall|i: int|
            0 <= i < bs.len() ==> unshadowed(#[trigger] bs[i].1, names + bound_names(bs.take(i))) && literals_fit(
                bs[i].1,
            ),
    ensures
        unshadowed_bindings(bs, names),
        literals_fit_bindings(bs),
    decreases bs.len(),
{
    broadcast use vstd::seq_lib::lemma_seq_concat_contains_all_elements;

    lemma_bound_names_index(bs);
    if bs.len() > 0 {
        let front = bs.drop_last();
        let last = (bs.len() - 1) as int;
        assert forall|i: int| 0 <= i < front.len() implies unshadowed(
            #[trigger] front[i].1,
            names + bound_names(front.take(i)),
        ) && literals_fit(front[i].1) by {
            assert(front.take(i) =~= bs.take(i));
            assert(front[i] == bs[i]);
        }
        assert forall|i: int| 0 <= i < front.len() implies #[trigger] front[i].0 == local_name(
            (base + i) as nat,
            scheme_names.drop_last()[i],
        ) by {
            assert(front[i] == bs[i]);
        }
        lemma_fresh_bindings(front, names, base, scheme_names.drop_last());
        assert(bs.take(last) =~= front);
        assert(bs[last] == bs.last());
        lemma_bound_names_index(front);
        assert(!(names + bound_names(front)).contains(bs.last().0)) by {
            if names.contains(bs.last().0) {
                assert(names.contains(local_name((base + last) as nat, scheme_names[last])));
            }
            if bound_names(front).contains(bs.last().0) {
                let j = choose|j: int| 0 <= j < bound_names(front).len() && bound_names(front)[j] == bs.last().0;
                assert(bound_names(front)[j] == bs[j].0);
                lemma_local_name_injective((base + j) as nat, scheme_names[j], (base + last) as nat, scheme_names[last]);
            }
        }
    }
}

/// The names of such bindings are locals numbered from `base` on.
proof fn lemma_bound_locals_window(bs: Seq<(Seq<char>, Term)>, base: nat, scheme_names: Seq<Seq<char>>)
    requires
        scheme_names.len() == bs.len(),
        forall|i: int| 0 <= i < bs.len() ==> #[trigger] bs[i].0 == local_name((base + i) as nat, scheme_names[i]),
    ensures
        forall|k: nat, x: Seq<char>|
            #[trigger] bound_names(bs).contains(local_name(k, x)) ==> base <= k < base + bs.len(),
{
    lemma_bound_names_index(bs);
    assert forall|k: nat, x: Seq<char>| #[trigger] bound_names(bs).contains(local_name(k, x)) implies base <= k
        < base + bs.len() by {
        let j = choose|j: int| 0 <= j < bound_names(bs).len() && bound_names(bs)[j] == local_name(k, x);
        lemma_local_name_injective((base + j) as nat, scheme_names[j], k, x);
    }
}

/// What a successful lowering step produced.
pub open spec fn output_of<T>(r: Result<(T, nat), Seq<char>>) -> T {
    match r {
        Ok((t, _)) => t,
        Err(_) => arbitrary(),
    }
}

/// The local counter after a successful lowering step.
pub open spec fn counter_after<T>(r: Result<(T, nat), Seq<char>>) -> nat {
    match r {
        Ok((_, m)) => m,
        Err(_) => 0,
    }
}

pub(crate) proof fn lemma_lowered_counts(e: AstTerm, scope: Renaming, n: nat)
    ensures
        lowered(e, scope, n) matches Ok((_, m)) ==> n <= m,
    decreases e,
{
    match e {
        AstTerm::If { condition, then_branch, else_branch } => {
            lemma_lowered_counts(*condition, scope, n);
            if let Ok((_, n1)) = lowered(*condition, scope, n) {
                lemma_lowered_counts(*then_branch, scope, n1);
                if let Ok((_, n2)) = lowered(*then_branch, scope, n1) {
                    lemma_lowered_counts(*else_branch, scope, n2);
                }
            }
        },
        AstTerm::Let { bindings, body } => {
            lemma_lowered_values_counts(bindings, scope, n);
            if let Ok((values, n1)) = lowered_values(bindings, scope, n) {
                let (bs, inner, n2) = bind_locals(values, scope, n1);
                lemma_bind_locals_names(values, scope, n1);
                lemma_lowered_counts(*body, inner, n2);
            }
        },
        AstTerm::Cons(a, b) => {
            lemma_lowered_counts(*a, scope, n);
            if let Ok((_, n1)) = lowered(*a, scope, n) {
                lemma_lowered_counts(*b, scope, n1);
            }
        },
        AstTerm::Car(v) => lemma_lowered_counts(*v, scope, n),
        AstTerm::Cdr(v) => lemma_lowered_counts(*v, scope, n),
        AstTerm::Null(v) => lemma_lowered_counts(*v, scope, n),
        AstTerm::Apply { function, args } => {
            lemma_lowered_args_counts(args, scope, n);
            if let Ok((a, n1)) = lowered_args(args, scope, n) {
                if let AstTerm::Lambda { params, body } = *function {
                    let (locals, inner, n2) = bind_params(params, scope, n1);
                    lemma_bind_params_names(params, scope, n1);
                    lemma_lowered_counts(*body, inner, n2);
                }
            }
        },
        _ => {},
    }
}

pub(crate) proof fn lemma_lowered_args_counts(s: Seq<AstTerm>, scope: Renaming, n: nat)
    ensures
        lowered_args(s, scope, n) matches Ok((_, m)) ==> n <= m,
    decreases s,
{
    if s.len() > 0 {
        lemma_lowered_args_counts(s.drop_last(), scope, n);
        if let Ok((_, n1)) = lowered_args(s.drop_last(), scope, n) {
            lemma_lowered_counts(s.last(), scope, n1);
        }
    }
}

pub(crate) proof fn lemma_lowered_values_counts(s: Seq<(Seq<char>, AstTerm)>, scope: Renaming, n: nat)
    ensures
        lowered_values(s, scope, n) matches Ok((_, m)) ==> n <= m,
    decreases s,
{
    if s.len() > 0 {
        lemma_lowered_values_counts(s.drop_last(), scope, n);
        if let Ok((_, n1)) = lowered_values(s.drop_last(), scope, n) {
            lemma_lowered_counts(s.last().1, scope, n1);
        }
    }
}

proof fn lemma_lowered_shape(e: AstTerm, scope: Renaming, n: nat, names: Seq<Seq<char>>)
    requires
        lowered(e, scope, n) is Ok,
        avoids_locals(names, n, counter_after(lowered(e, scope, n))),
    ensures
        unshadowed(output_of(lowered(e, scope, n)), names),
        literals_fit(output_of(lowered(e, scope, n))),
    decreases e,
{
    broadcast use vstd::seq_lib::lemma_seq_concat_contains_all_elements;

    lemma_lowered_counts(e, scope, n);
    match e {
        AstTerm::If { condition, then_branch, else_branch } => {
            let n1 = counter_after(lowered(*condition, scope, n));
            let n2 = counter_after(lowered(*then_branch, scope, n1));
            lemma_lowered_counts(*condition, scope, n);
            lemma_lowered_counts(*then_branch, scope, n1);
            lemma_lowered_counts(*else_branch, scope, n2);
            lemma_lowered_shape(*condition, scope, n, names);
            lemma_lowered_shape(*then_branch, scope, n1, names);
            lemma_lowered_shape(*else_branch, scope, n2, names);
        },
        AstTerm::Let { bindings, body } => {
            let values = output_of(lowered_values(bindings, scope, n));
            let n1 = counter_after(lowered_values(bindings, scope, n));
            let (bs, inner, n2) = bind_locals(values, scope, n1);
            let b = output_of(lowered(*body, inner, n2));
            let n3 = counter_after(lowered(*body, inner, n2));
            lemma_lowered_values_counts(bindings, scope, n);
            lemma_bind_locals_names(values, scope, n1);
            lemma_lowered_counts(*body, inner, n2);
            let scheme_names = Seq::new(values.len(), |i: int| values[i].0);
            assert forall|i: int| 0 <= i < bs.len() implies unshadowed(
                #[trigger] bs[i].1,
                names + bound_names(bs.take(i)),
            ) && literals_fit(bs[i].1) by {
                let before = bs.take(i);
                lemma_bound_locals_window(before, n1, scheme_names.take(i));
                let wider = names + bound_names(before);
                assert(avoids_locals(wider, n, n1));
                lemma_lowered_values_shape(bindings, scope, n, wider);
            }
            lemma_fresh_bindings(bs, names, n1, scheme_names);
            lemma_bound_locals_window(bs, n1, scheme_names);
            assert(avoids_locals(names + bound_names(bs), n2, n3));
            lemma_lowered_shape(*body, inner, n2, names + bound_names(bs));
        },
        AstTerm::Cons(a, b) => {
            let n1 = counter_after(lowered(*a, scope, n));
            lemma_lowered_counts(*a, scope, n);
            lemma_lowered_counts(*b, scope, n1);
            lemma_lowered_shape(*a, scope, n, names);
            lemma_lowered_shape(*b, scope, n1, names);
        },
        AstTerm::Car(v) => lemma_lowered_shape(*v, scope, n, names),
        AstTerm::Cdr(v) => lemma_lowered_shape(*v, scope, n, names),
        AstTerm::Null(v) => lemma_lowered_shape(*v, scope, n, names),
        AstTerm::Apply { function, args } => {
            let a = output_of(lowered_args(args, scope, n));
            let n1 = counter_after(lowered_args(args, scope, n));
            lemma_lowered_args_counts(args, scope, n);
            match *function {
                AstTerm::Lambda { params, body } => {
                    let (locals, inner, n2) = bind_params(params, scope, n1);
                    lemma_bind_params_names(params, scope, n1);
                    lemma_lowered_counts(*body, inner, n2);
                    let b = output_of(lowered(*body, inner, n2));
                    let n3 = counter_after(lowered(*body, inner, n2));
                    let bs = Seq::new(locals.len(), |i: int| (locals[i], a[i]));
                    assert forall|i: int| 0 <= i < bs.len() implies #[trigger] bs[i].0 == local_name(
                        (n1 + i) as nat,
                        params[i],
                    ) by {
                        assert(locals[i] == local_name((n1 + i) as nat, params[i]));
                    }
                    lemma_lowered_args_shape(args, scope, n, names);
                    lemma_literals_fit_each(a);
                    assert forall|i: int| 0 <= i < bs.len() implies unshadowed(
                        #[trigger] bs[i].1,
                        names + bound_names(bs.take(i)),
                    ) && literals_fit(bs[i].1) by {
                        let before = bs.take(i);
                        assert forall|j: int| 0 <= j < before.len() implies #[trigger] before[j].0 == local_name(
                            (n1 + j) as nat,
                            params.take(i)[j],
                        ) by {
                            assert(before[j] == bs[j]);
                        }
                        lemma_bound_locals_window(before, n1, params.take(i));
                        let wider = names + bound_names(before);
                        assert(avoids_locals(wider, n, n1));
                        lemma_lowered_args_shape(args, scope, n, wider);
                        lemma_unshadowed_each(a, wider);
                    }
                    lemma_fresh_bindings(bs, names, n1, params);
                    lemma_bound_locals_window(bs, n1, params);
                    assert(avoids_locals(names + bound_names(bs), n2, n3));
                    lemma_lowered_shape(*body, inner, n2, names + bound_names(bs));
                },
                _ => {
                    lemma_lowered_args_shape(args, scope, n, names);
                },
            }
        },
        _ => {},
    }
}

proof fn lemma_lowered_args_shape(s: Seq<AstTerm>, scope: Renaming, n: nat, names: Seq<Seq<char>>)
    requires
        lowered_args(s, scope, n) is Ok,
        avoids_locals(names, n, counter_after(lowered_args(s, scope, n))),
    ensures
        unshadowed_all(output_of(lowered_args(s, scope, n)), names),
        literals_fit_all(output_of(lowered_args(s, scope, n))),
    decreases s,
{
    if s.len() > 0 {
        let front = output_of(lowered_args(s.drop_last(), scope, n));
        let n1 = counter_after(lowered_args(s.drop_last(), scope, n));
        lemma_lowered_args_counts(s.drop_last(), scope, n);
        lemma_lowered_counts(s.last(), scope, n1);
        lemma_lowered_args_shape(s.drop_last(), scope, n, names);
        lemma_lowered_shape(s.last(), scope, n1, names);
        let r = output_of(lowered_args(s, scope, n));
        assert(r.drop_last() =~= front);
    }
}

proof fn lemma_lowered_values_shape(s: Seq<(Seq<char>, AstTerm)>, scope: Renaming, n: nat, names: Seq<Seq<char>>)
    requires
        lowered_values(s, scope, n) is Ok,
        avoids_locals(names, n, counter_after(lowered_values(s, scope, n))),
    ensures
        forall|i: int|
            0 <= i < output_of(lowered_values(s, scope, n)).len() ==> unshadowed(
                #[trigger] output_of(lowered_values(s, scope, n))[i].1,
                names,
            ) && literals_fit(output_of(lowered_values(s, scope, n))[i].1),
    decreases s,
{
    if s.len() > 0 {
        let front = output_of(lowered_values(s.drop_last(), scope, n));
        let n1 = counter_after(lowered_values(s.drop_last(), scope, n));
        lemma_lowered_values_counts(s.drop_last(), scope, n);
        lemma_lowered_counts(s.last().1, scope, n1);
        lemma_lowered_values_shape(s.drop_last(), scope, n, names);
        lemma_lowered_shape(s.last().1, scope, n1, names);
        let r = output_of(lowered_values(s, scope, n));
        assert forall|i: int| 0 <= i < r.len() implies unshadowed(#[trigger] r[i].1, names) && literals_fit(r[i].1) by {
            if i < r.len() - 1 {
                assert(r[i] == front[i]);
            }
        }
    }
}

/// Lowering names every local freshly and keeps every literal in the signed
/// 24-bit range: in each lowered definition body no `let` rebinds a name
/// already in scope.
pub proof fn lemma_lowered_definitions_shape(ds: Seq<AstDef>, n: nat)
    ensures
        lowered_definitions(ds, n) matches Ok((defs, _)) ==> forall|i: int|
            0 <= i < defs.len() ==> literals_fit(#[trigger] defs[i].body) && unshadowed(defs[i].body, Seq::empty()),
    decreases ds.len(),
{
    if ds.len() > 0 {
        lemma_lowered_definitions_shape(ds.drop_last(), n);
        if let Ok((front, n1)) = lowered_definitions(ds.drop_last(), n) {
            let (params, body) = crate::ir::definition_parts(ds.last().value);
            let (locals, scope, n2) = bind_params(params, Seq::empty(), n1);
            if lowered(body, scope, n2) is Ok {
                lemma_lowered_shape(body, scope, n2, Seq::empty());
            }
            if let Ok((defs, _)) = lowered_definitions(ds, n) {
                assert forall|i: int| 0 <= i < defs.len() implies literals_fit(#[trigger] defs[i].body) && unshadowed(
                    defs[i].body,
                    Seq::empty(),
                ) by {
                    if i < defs.len() - 1 {
                        assert(defs[i] == front[i]);
                    }
                }
            }
        }
    }
}

/// No `let` in a lowered definition's body rebinds one of its parameters:
/// every binder is a local numbered after them.
pub proof fn lemma_lowered_params_unshadowed(ds: Seq<AstDef>, n: nat)
    ensures
        lowered_definitions(ds, n) matches Ok((defs, _)) ==> forall|i: int|
            0 <= i < defs.len() ==> unshadowed(#[trigger] defs[i].body, defs[i].params),
    decreases ds.len(),
{
    if ds.len() > 0 {
        lemma_lowered_params_unshadowed(ds.drop_last(), n);
        if let Ok((front, n1)) = lowered_definitions(ds.drop_last(), n) {
            let (params, body) = crate::ir::definition_parts(ds.last().value);
            let (locals, scope, n2) = bind_params(params, Seq::empty(), n1);
            lemma_bind_params_names(params, Seq::empty(), n1);
            if lowered(body, scope, n2) is Ok {
                let hi = counter_after(lowered(body, scope, n2));
                assert forall|k: nat, x: Seq<char>| n2 <= k < hi implies !locals.contains(#[trigger] local_name(k, x)) by {
                    if locals.contains(local_name(k, x)) {
                        let j = choose|j: int| 0 <= j < locals.len() && locals[j] == local_name(k, x);
                        assert(locals[j] == local_name((n1 + j) as nat, params[j]));
                        lemma_local_name_injective((n1 + j) as nat, params[j], k, x);
                    }
                }
                lemma_lowered_shape(body, scope, n2, locals);
            }
            if let Ok((defs, _)) = lowered_definitions(ds, n) {
                assert forall|i: int| 0 <= i < defs.len() implies unshadowed(#[trigger] defs[i].body, defs[i].params) by {
                    if i < defs.len() - 1 {
                        assert(defs[i] == front[i]);
                    }
                }
            }
        }
    }
}

/// The same holds of the lowered final expression.
pub proof fn lemma_lowered_body_shape(body: Option<AstTerm>, n: nat)
    ensures
        lowered_body(body, n) matches Ok(Some(t)) ==> literals_fit(t) && unshadowed(t, Seq::empty()),
{
    if let Some(e) = body {
        if lowered(e, Seq::empty(), n) is Ok {
            lemma_lowered_shape(e, Seq::empty(), n, Seq::empty());
        }
    }
}

// ---------------------------------------------------------------------------
// Settling a whole program
// ---------------------------------------------------------------------------

/// `q` is `p` with every definition body settled.
pub open spec fn settled_defs(p: Seq<DefTerm>, q: Seq<DefTerm>, propagate: bool) -> bool {
    &&& q.len() == p.len()
    &&& forall|i: int| 0 <= i < p.len() ==> #[trigger] q[i] == with_body(p[i], settled(p[i].body, propagate, 4))
}

/// Every definition body has its literals in range and no `let` that
/// rebinds a name already in scope.
pub open spec fn well_scoped(defs: Seq<DefTerm>) -> bool {
    forall|i: int| 0 <= i < defs.len() ==> literals_fit(#[trigger] defs[i].body) && unshadowed(defs[i].body, Seq::empty())
}

proof fn lemma_find_settled_def(p: Seq<DefTerm>, q: Seq<DefTerm>, propagate: bool, name: Seq<char>)
    requires
        settled_defs(p, q, propagate),
    ensures
        find_def(q, name) is Some <==> find_def(p, name) is Some,
        find_def(p, name) matches Some(d) ==> find_def(q, name) == Some(
            with_body(d, settled(d.body, propagate, 4)),
        ),
        find_def(p, name) matches Some(d) ==> exists|i: int| 0 <= i < p.len() && p[i] == d,
    decreases p.len(),
{
    if p.len() > 0 {
        let last = p.len() - 1;
        assert(q[last] == with_body(p[last], settled(p[last].body, propagate, 4)));
        assert(settled_defs(p.drop_last(), q.drop_last(), propagate)) by {
            assert forall|i: int| 0 <= i < p.drop_last().len() implies #[trigger] q.drop_last()[i] == with_body(
                p.drop_last()[i],
                settled(p.drop_last()[i].body, propagate, 4),
            ) by {
                assert(q[i] == with_body(p[i], settled(p[i].body, propagate, 4)));
            }
        }
        lemma_find_settled_def(p.drop_last(), q.drop_last(), propagate, name);
        if p.last().name != name {
            if let Some(d) = find_def(p, name) {
                let i = choose|i: int| 0 <= i < p.drop_last().len() && p.drop_last()[i] == d;
                assert(p[i] == d);
            }
        }
    }
}

/// Calling definitions whose bodies were settled never changes a result that
/// calling the unsettled definitions computed.
proof fn lemma_settled_defs_refine(
    p: Seq<DefTerm>,
    q: Seq<DefTerm>,
    propagate: bool,
    t: Term,
    env: Map<Seq<char>, Value>,
    fuel: nat,
)
    requires
        settled_defs(p, q, propagate),
        well_scoped(p),
        evaluated(p, t, env, fuel) is Some,
    ensures
        evaluated(q, t, env, fuel) == evaluated(p, t, env, fuel),
    decreases fuel, t,
{
    match t {
        Term::Primitive { op, args } => {
            if args.len() == 2 {
                lemma_settled_defs_refine(p, q, propagate, args[0], env, fuel);
                lemma_settled_defs_refine(p, q, propagate, args[1], env, fuel);
            }
        },
        Term::Call { callee, args } => {
            lemma_settled_defs_refine_all(p, q, propagate, args, env, fuel);
            lemma_find_settled_def(p, q, propagate, callee);
            let values = evaluated_all(p, args, env, fuel).unwrap();
            let d = find_def(p, callee).unwrap();
            let i = choose|i: int| 0 <= i < p.len() && p[i] == d;
            assert(literals_fit(p[i].body) && unshadowed(p[i].body, Seq::empty()));
            let inner = bound_params(d.params, values);
            let f = (fuel - 1) as nat;
            lemma_settled_keeps_value(p, d.body, propagate, 4, inner, f);
            lemma_settled_defs_refine(p, q, propagate, settled(d.body, propagate, 4), inner, f);
        },
        Term::If { condition, then_branch, else_branch } => {
            lemma_settled_defs_refine(p, q, propagate, *condition, env, fuel);
            if let Some(Value::Num(c)) = evaluated(p, *condition, env, fuel) {
                if c == 0 {
                    lemma_settled_defs_refine(p, q, propagate, *else_branch, env, fuel);
                } else {
                    lemma_settled_defs_refine(p, q, propagate, *then_branch, env, fuel);
                }
            }
        },
        Term::Let { bindings, body } => {
            lemma_settled_defs_refine_bindings(p, q, propagate, bindings, env, fuel);
            let inner = bound_in(p, bindings, env, fuel).unwrap();
            lemma_settled_defs_refine(p, q, propagate, *body, inner, fuel);
        },
        Term::Cons(h, tl) => {
            lemma_settled_defs_refine(p, q, propagate, *h, env, fuel);
            lemma_settled_defs_refine(p, q, propagate, *tl, env, fuel);
        },
        Term::Car(v) => lemma_settled_defs_refine(p, q, propagate, *v, env, fuel),
        Term::Cdr(v) => lemma_settled_defs_refine(p, q, propagate, *v, env, fuel),
        Term::Null(v) => lemma_settled_defs_refine(p, q, propagate, *v, env, fuel),
        _ => {},
    }
}

proof fn lemma_settled_defs_refine_all(
    p: Seq<DefTerm>,
    q: Seq<DefTerm>,
    propagate: bool,
    s: Seq<Term>,
    env: Map<Seq<char>, Value>,
    fuel: nat,
)
    requires
        settled_defs(p, q, propagate),
        well_scoped(p),
        evaluated_all(p, s, env, fuel) is Some,
    ensures
        evaluated_all(q, s, env, fuel) == evaluated_all(p, s, env, fuel),
    decreases fuel, s,
{
    if s.len() > 0 {
        lemma_settled_defs_refine_all(p, q, propagate, s.drop_last(), env, fuel);
        lemma_settled_defs_refine(p, q, propagate, s.last(), env, fuel);
    }
}

proof fn lemma_settled_defs_refine_bindings(
    p: Seq<DefTerm>,
    q: Seq<DefTerm>,
    propagate: bool,
    s: Seq<(Seq<char>, Term)>,
    env: Map<Seq<char>, Value>,
    fuel: nat,
)
    requires
        settled_defs(p, q, propagate),
        well_scoped(p),
        bound_in(p, s, env, fuel) is Some,
    ensures
        bound_in(q, s, env, fuel) == bound_in(p, s, env, fuel),
    decreases fuel, s,
{
    if s.len() > 0 {
        lemma_settled_defs_refine_bindings(p, q, propagate, s.drop_last(), env, fuel);
        let inner = bound_in(p, s.drop_last(), env, fuel).unwrap();
        lemma_settled_defs_refine(p, q, propagate, s.last().1, inner, fuel);
    }
}

proof fn lemma_finish_defs_settles(defs: Seq<DefTerm>, propagate: bool, st: FreshState)
    ensures
        finish_defs(defs, propagate, false, st).1 == st,
        settled_defs(defs, finish_defs(defs, propagate, false, st).0, propagate),
    decreases defs.len(),
{
    if defs.len() > 0 {
        lemma_finish_defs_settles(defs.drop_last(), propagate, st);
        let out = finish_defs(defs, propagate, false, st).0;
        assert forall|i: int| 0 <= i < defs.len() implies #[trigger] out[i] == with_body(
            defs[i],
            settled(defs[i].body, propagate, 4),
        ) by {
            if i < defs.len() - 1 {
                assert(defs.drop_last()[i] == defs[i]);
            }
        }
    }
}

/// With inlining, tail unrolling, reshaping, partial evaluation and sharing
/// turned off, optimizing a program whose bodies keep their literals in range
/// and rebind no name in scope (as every lowered program does) never changes
/// a result it computed: its final expression gives the same value, calling
/// the settled definitions.
pub proof fn lemma_settling_keeps_program_result(p: ProgramTerm, o: Options, env: Map<Seq<char>, Value>, fuel: nat)
    requires
        !o.inline_helpers,
        o.tail_unroll <= 1,
        !o.common_subexpressions,
        o.shape == Shape::AsWritten,
        o.peval == 0,
        well_scoped(p.definitions),
        p.body matches Some(b) && literals_fit(b) && unshadowed(b, Seq::empty()) && evaluated(
            p.definitions,
            b,
            env,
            fuel,
        ) is Some,
    ensures
        optimized(p, o).body is Some,
        evaluated(optimized(p, o).definitions, optimized(p, o).body.unwrap(), env, fuel) == evaluated(
            p.definitions,
            p.body.unwrap(),
            env,
            fuel,
        ),
{
    let b = p.body.unwrap();
    lemma_as_written_is_identity(p);
    let st0 = FreshState { next: 0, used: crate::optimize::program_names(p).to_set() };
    lemma_finish_defs_settles(p.definitions, o.constant_propagation, st0);
    let q = finish_defs(p.definitions, o.constant_propagation, false, st0).0;
    let settled_body = settled(b, o.constant_propagation, 4);
    assert(optimized(p, o).definitions == q);
    assert(optimized(p, o).body == Some(settled_body));
    lemma_settled_keeps_value(p.definitions, b, o.constant_propagation, 4, env, fuel);
    lemma_settled_defs_refine(p.definitions, q, o.constant_propagation, settled_body, env, fuel);
}

// ---------------------------------------------------------------------------
// Fresh names and call-free code
// ---------------------------------------------------------------------------

proof fn lemma_used_names_count(used: Set<Seq<char>>, a: nat, n: nat)
    requires
        used.finite(),
        forall|k: nat| a <= k < a + n ==> used.contains(#[trigger] opt_name(k)),
    ensures
        n <= used.len(),
    decreases n,
{
    if n > 0 {
        let last = opt_name((a + n - 1) as nat);
        let rest = used.remove(last);
        assert forall|k: nat| a <= k < a + (n - 1) implies rest.contains(#[trigger] opt_name(k)) by {
            if opt_name(k) == last {
                lemma_opt_name_injective(k, (a + n - 1) as nat);
            }
        }
        lemma_used_names_count(rest, a, (n - 1) as nat);
    }
}

proof fn lemma_first_free(st: FreshState, m: nat)
    requires
        st.next <= m,
        !st.used.contains(opt_name(m)),
    ensures
        exists|j: nat| free_from(st, j),
    decreases m - st.next,
{
    if st.used.contains(opt_name(st.next)) {
        let later = FreshState { next: st.next + 1, used: st.used };
        lemma_first_free(later, m);
        let j = choose|j: nat| free_from(later, j);
        assert(free_from(st, j));
    } else {
        assert(free_from(st, st.next));
    }
}

/// From a finite set of names in use, the supply hands out one not in use
/// and marks it used.
pub proof fn lemma_take_local_fresh(st: FreshState)
    requires
        st.used.finite(),
    ensures
        !st.used.contains(take_local(st).0),
        take_local(st).1.used == st.used.insert(take_local(st).0),
        take_local(st).1.used.finite(),
{
    let n = st.used.len() + 1;
    if forall|k: nat| st.next <= k < st.next + n ==> st.used.contains(#[trigger] opt_name(k)) {
        lemma_used_names_count(st.used, st.next, n);
    }
    let m = choose|m: nat| st.next <= m < st.next + n && !st.used.contains(opt_name(m));
    lemma_first_free(st, m);
}

/// The names a supply hands out over `k` calls, and the supply after.
pub open spec fn taken(st: FreshState, k: nat) -> (Seq<Seq<char>>, FreshState)
    decreases k,
{
    if k == 0 {
        (Seq::empty(), st)
    } else {
        let (ns, s1) = taken(st, (k - 1) as nat);
        let (n, s2) = take_local(s1);
        (ns.push(n), s2)
    }
}

/// Over any number of calls the supply hands out distinct names, none of
/// them in use when it started, and marks each one used.
pub proof fn lemma_taken_distinct(st: FreshState, k: nat)
    requires
        st.used.finite(),
    ensures
        taken(st, k).0.len() == k,
        taken(st, k).1.used.finite(),
        st.used.subset_of(taken(st, k).1.used),
        forall|i: int| 0 <= i < k ==> !st.used.contains(#[trigger] taken(st, k).0[i]),
        forall|i: int| 0 <= i < k ==> taken(st, k).1.used.contains(#[trigger] taken(st, k).0[i]),
        forall|i: int, j: int| 0 <= i < j < k ==> taken(st, k).0[i] != taken(st, k).0[j],
    decreases k,
{
    if k > 0 {
        let k1 = (k - 1) as nat;
        lemma_taken_distinct(st, k1);
        let (ns, s1) = taken(st, k1);
        lemma_take_local_fresh(s1);
        let out = taken(st, k).0;
        assert forall|i: int| 0 <= i < k implies !st.used.contains(#[trigger] out[i]) && taken(st, k).1.used.contains(
            out[i],
        ) by {
            if i < k1 {
                assert(out[i] == ns[i]);
            }
        }
        assert forall|i: int, j: int| 0 <= i < j < k implies out[i] != out[j] by {
            assert(out[i] == ns[i]);
            if j < k1 {
                assert(out[j] == ns[j]);
            } else {
                assert(s1.used.contains(ns[i]));
            }
        }
    }
}

/// Code without calls computes the same whatever the definitions and the
/// fuel.
proof fn lemma_call_free(
    d1: Seq<DefTerm>,
    d2: Seq<DefTerm>,
    t: Term,
    env: Map<Seq<char>, Value>,
    f1: nat,
    f2: nat,
)
    requires
        !has_call(t),
    ensures
        evaluated(d1, t, env, f1) == evaluated(d2, t, env, f2),
    decreases t,
{
    match t {
        Term::Primitive { op, args } => {
            lemma_call_free_each(args);
            if args.len() == 2 {
                lemma_call_free(d1, d2, args[0], env, f1, f2);
                lemma_call_free(d1, d2, args[1], env, f1, f2);
            }
        },
        Term::If { condition, then_branch, else_branch } => {
            lemma_call_free(d1, d2, *condition, env, f1, f2);
            lemma_call_free(d1, d2, *then_branch, env, f1, f2);
            lemma_call_free(d1, d2, *else_branch, env, f1, f2);
        },
        Term::Let { bindings, body } => {
            lemma_call_free_bindings(d1, d2, bindings, env, f1, f2);
            if let Some(inner) = bound_in(d1, bindings, env, f1) {
                lemma_call_free(d1, d2, *body, inner, f1, f2);
            }
        },
        Term::Cons(h, tl) => {
            lemma_call_free(d1, d2, *h, env, f1, f2);
            lemma_call_free(d1, d2, *tl, env, f1, f2);
        },
        Term::Car(v) => lemma_call_free(d1, d2, *v, env, f1, f2),
        Term::Cdr(v) => lemma_call_free(d1, d2, *v, env, f1, f2),
        Term::Null(v) => lemma_call_free(d1, d2, *v, env, f1, f2),
        _ => {},
    }
}

proof fn lemma_call_free_each(s: Seq<Term>)
    requires
        !has_call_any(s),
    ensures
        forall|i: int| 0 <= i < s.len() ==> !has_call(#[trigger] s[i]),
    decreases s.len(),
{
    if s.len() > 0 {
        lemma_call_free_each(s.drop_last());
        assert forall|i: int| 0 <= i < s.len() implies !has_call(#[trigger] s[i]) by {
            if i < s.len() - 1 {
                assert(s.drop_last()[i] == s[i]);
            }
        }
    }
}

proof fn lemma_call_free_bindings(
    d1: Seq<DefTerm>,
    d2: Seq<DefTerm>,
    s: Seq<(Seq<char>, Term)>,
    env: Map<Seq<char>, Value>,
    f1: nat,
    f2: nat,
)
    requires
        !has_call_in_bindings(s),
    ensures
        bound_in(d1, s, env, f1) == bound_in(d2, s, env, f2),
    decreases s,
{
    if s.len() > 0 {
        lemma_call_free_bindings(d1, d2, s.drop_last(), env, f1, f2);
        if let Some(inner) = bound_in(d1, s.drop_last(), env, f1) {
            lemma_call_free(d1, d2, s.last().1, inner, f1, f2);
        }
    }
}

// ---------------------------------------------------------------------------
// Renaming
// ---------------------------------------------------------------------------

/// Every name of `names`, and what `ren` renames it to, is in use.
pub open spec fn known(names: Seq<Seq<char>>, ren: Renaming, used: Set<Seq<char>>) -> bool {
    forall|n: Seq<char>| #[trigger] names.contains(n) ==> used.contains(n) && used.contains(renamed_to(ren, n))
}

/// Every name of `names` is in use.
pub open spec fn all_used(names: Seq<Seq<char>>, used: Set<Seq<char>>) -> bool {
    forall|n: Seq<char>| #[trigger] names.contains(n) ==> used.contains(n)
}

proof fn lemma_known_fewer(names: Seq<Seq<char>>, fewer: Seq<Seq<char>>, ren: Renaming, used: Set<Seq<char>>)
    requires
        known(names, ren, used),
        within(fewer, names),
    ensures
        known(fewer, ren, used),
{
    assert forall|n: Seq<char>| #[trigger] fewer.contains(n) implies used.contains(n) && used.contains(
        renamed_to(ren, n),
    ) by {
        assert(names.contains(n));
    }
}

proof fn lemma_known_more_used(names: Seq<Seq<char>>, ren: Renaming, used: Set<Seq<char>>, more: Set<Seq<char>>)
    requires
        known(names, ren, used),
        used.subset_of(more),
    ensures
        known(names, ren, more),
{
}

proof fn lemma_names_in_all_within(s: Seq<Term>)
    ensures
        s.len() > 0 ==> within(names_in_all(s.drop_last()), names_in_all(s)) && within(names_in(s.last()), names_in_all(s)),
{
    if s.len() > 0 {
        lemma_within_concat(names_in_all(s.drop_last()), names_in(s.last()), names_in_all(s));
    }
}

proof fn lemma_names_in_bindings_within(s: Seq<(Seq<char>, Term)>)
    ensures
        s.len() > 0 ==> within(names_in_bindings(s.drop_last()), names_in_bindings(s)) && within(
            names_in(s.last().1),
            names_in_bindings(s),
        ),
{
    if s.len() > 0 {
        let a = names_in_bindings(s.drop_last());
        let b = seq![s.last().0];
        let c = names_in(s.last().1);
        lemma_within_concat(a + b, c, names_in_bindings(s));
        lemma_within_concat(a, b, names_in_bindings(s));
    }
}

/// Giving bindings fresh names, one after another: the new names are
/// pairwise distinct and were not in use, and the renaming grows by one
/// pair per binding.
proof fn lemma_freshen(values: Seq<(Seq<char>, Term)>, ren: Renaming, st: FreshState)
    requires
        st.used.finite(),
    ensures
        ({
            let (bs, ren2, s2) = freshen(values, ren, st);
            &&& bs.len() == values.len()
            &&& forall|i: int| 0 <= i < bs.len() ==> (#[trigger] bs[i]).1 == values[i].1
            &&& forall|i: int| 0 <= i < bs.len() ==> !st.used.contains(#[trigger] bs[i].0)
            &&& forall|i: int| 0 <= i < bs.len() ==> s2.used.contains(#[trigger] bs[i].0)
            &&& forall|i: int, j: int| 0 <= i < j < bs.len() ==> bs[i].0 != bs[j].0
            &&& s2.used.finite()
            &&& st.used.subset_of(s2.used)
            &&& ren2 == ren + Seq::new(values.len(), |i: int| (values[i].0, bs[i].0))
        }),
    decreases values.len(),
{
    if values.len() > 0 {
        let (front, e1, s1) = freshen(values.drop_last(), ren, st);
        lemma_freshen(values.drop_last(), ren, st);
        lemma_take_local_fresh(s1);
        let (bs, ren2, s2) = freshen(values, ren, st);
        assert(bs.drop_last() =~= front);
        assert forall|i: int| 0 <= i < bs.len() implies (#[trigger] bs[i]).1 == values[i].1 by {
            if i < bs.len() - 1 {
                assert(bs[i] == front[i]);
                assert(values.drop_last()[i] == values[i]);
            }
        }
        assert forall|i: int| 0 <= i < bs.len() implies !st.used.contains(#[trigger] bs[i].0) && s2.used.contains(
            bs[i].0,
        ) by {
            if i < bs.len() - 1 {
                assert(bs[i] == front[i]);
            }
        }
        assert forall|i: int, j: int| 0 <= i < j < bs.len() implies bs[i].0 != bs[j].0 by {
            if j < bs.len() - 1 {
                assert(bs[i] == front[i] && bs[j] == front[j]);
            } else {
                assert(bs[i] == front[i]);
                assert(s1.used.contains(front[i].0));
            }
        }
        let extra = Seq::new(values.len(), |i: int| (values[i].0, bs[i].0));
        let front_extra = Seq::new(values.drop_last().len(), |i: int| (values.drop_last()[i].0, front[i].0));
        assert(front_extra =~= extra.drop_last());
        assert(ren2 =~= ren + extra);
    }
}

/// Where a name lands under a renaming extended by more pairs: the last of
/// the new pairs for it, if any, else where it landed before.
proof fn lemma_renamed_to_extended(ren: Renaming, extra: Renaming, n: Seq<char>)
    ensures
        (exists|i: int| 0 <= i < extra.len() && extra[i].0 == n) ==> exists|i: int|
            0 <= i < extra.len() && extra[i].0 == n && (forall|j: int| i < j < extra.len() ==> extra[j].0 != n)
                && renamed_to(ren + extra, n) == extra[i].1,
        !(exists|i: int| 0 <= i < extra.len() && extra[i].0 == n) ==> renamed_to(ren + extra, n) == renamed_to(ren, n),
    decreases extra.len(),
{
    if extra.len() == 0 {
        assert(ren + extra =~= ren);
    } else {
        assert((ren + extra).drop_last() =~= ren + extra.drop_last());
        lemma_renamed_to_extended(ren, extra.drop_last(), n);
        let last = extra.len() - 1;
        if extra[last].0 == n {
            assert(renamed_to(ren + extra, n) == extra[last].1);
        } else {
            if exists|i: int| 0 <= i < extra.len() && extra[i].0 == n {
                let k = choose|i: int| 0 <= i < extra.len() && extra[i].0 == n;
                assert(extra.drop_last()[k] == extra[k]);
                let i = choose|i: int|
                    0 <= i < extra.drop_last().len() && extra.drop_last()[i].0 == n && (forall|j: int|
                        i < j < extra.drop_last().len() ==> extra.drop_last()[j].0 != n) && renamed_to(
                        ren + extra.drop_last(),
                        n,
                    ) == extra.drop_last()[i].1;
                assert(extra[i] == extra.drop_last()[i]);
                assert forall|j: int| i < j < extra.len() implies extra[j].0 != n by {
                    if j < last {
                        assert(extra[j] == extra.drop_last()[j]);
                    }
                }
            } else {
                assert forall|i: int| 0 <= i < extra.drop_last().len() implies extra.drop_last()[i].0 != n by {
                    assert(extra.drop_last()[i] == extra[i]);
                }
            }
        }
    }
}

/// A name a `let` mentions is one of its names or one its values mention.
proof fn lemma_names_in_bindings_parts(s: Seq<(Seq<char>, Term)>, n: Seq<char>)
    ensures
        names_in_bindings(s).contains(n) <==> (exists|i: int| 0 <= i < s.len() && s[i].0 == n) || (exists|i: int|
            0 <= i < s.len() && names_in(s[i].1).contains(n)),
    decreases s.len(),
{
    broadcast use vstd::seq_lib::lemma_seq_concat_contains_all_elements;

    if s.len() > 0 {
        lemma_names_in_bindings_parts(s.drop_last(), n);
        let last = s.len() - 1;
        assert(s[last] == s.last());
        assert(seq![s.last().0][0] == s.last().0);
        if exists|i: int| 0 <= i < s.drop_last().len() && s.drop_last()[i].0 == n {
            let i = choose|i: int| 0 <= i < s.drop_last().len() && s.drop_last()[i].0 == n;
            assert(s[i] == s.drop_last()[i]);
        }
        if exists|i: int| 0 <= i < s.drop_last().len() && names_in(s.drop_last()[i].1).contains(n) {
            let i = choose|i: int| 0 <= i < s.drop_last().len() && names_in(s.drop_last()[i].1).contains(n);
            assert(s[i] == s.drop_last()[i]);
        }
        if exists|i: int| 0 <= i < s.len() && s[i].0 == n {
            let i = choose|i: int| 0 <= i < s.len() && s[i].0 == n;
            if i < last {
                assert(s.drop_last()[i] == s[i]);
            }
        }
        if exists|i: int| 0 <= i < s.len() && names_in(s[i].1).contains(n) {
            let i = choose|i: int| 0 <= i < s.len() && names_in(s[i].1).contains(n);
            if i < last {
                assert(s.drop_last()[i] == s[i]);
            }
        }
    }
}

/// What a renamed expression mentions is in use afterwards, and the supply
/// only grows.
proof fn lemma_renamed_names(t: Term, ren: Renaming, st: FreshState)
    requires
        st.used.finite(),
        known(names_in(t), ren, st.used),
    ensures
        renamed(t, ren, st).1.used.finite(),
        st.used.subset_of(renamed(t, ren, st).1.used),
        all_used(names_in(renamed(t, ren, st).0), renamed(t, ren, st).1.used),
    decreases t, 1nat,
{
    let u = names_in(t);
    match t {
        Term::Var(n) => {
            assert(u[0] == n);
            assert(u.contains(n));
            assert(names_in(renamed(t, ren, st).0) =~= seq![renamed_to(ren, n)]);
            assert(seq![renamed_to(ren, n)][0] == renamed_to(ren, n));
        },
        Term::Primitive { op, args } => lemma_renamed_all_names(args, ren, st),
        Term::Call { callee, args } => {
            lemma_within_concat(seq![callee], names_in_all(args), u);
            assert(seq![callee][0] == callee);
            lemma_known_fewer(u, names_in_all(args), ren, st.used);
            lemma_renamed_all_names(args, ren, st);
            let (a, s1) = renamed_all(args, ren, st);
            lemma_all_used_concat(seq![callee], names_in_all(a), s1.used);
        },
        Term::If { condition, then_branch, else_branch } => {
            let c0 = names_in(*condition);
            let a0 = names_in(*then_branch);
            let b0 = names_in(*else_branch);
            lemma_within_concat(c0 + a0, b0, u);
            lemma_within_concat(c0, a0, u);
            lemma_known_fewer(u, c0, ren, st.used);
            lemma_known_fewer(u, a0, ren, st.used);
            lemma_known_fewer(u, b0, ren, st.used);
            let (c, s1) = renamed(*condition, ren, st);
            lemma_renamed_names(*condition, ren, st);
            let (a, s2) = renamed(*then_branch, ren, s1);
            lemma_known_more_used(a0, ren, st.used, s1.used);
            lemma_renamed_names(*then_branch, ren, s1);
            let (b, s3) = renamed(*else_branch, ren, s2);
            lemma_known_more_used(b0, ren, st.used, s2.used);
            lemma_renamed_names(*else_branch, ren, s2);
            lemma_all_used_more(names_in(c), s1.used, s3.used);
            lemma_all_used_more(names_in(a), s2.used, s3.used);
            lemma_all_used_concat(names_in(c), names_in(a), s3.used);
            lemma_all_used_concat(names_in(c) + names_in(a), names_in(b), s3.used);
        },
        Term::Let { .. } => lemma_renamed_let_names(t, ren, st),
        Term::Cons(h, tl) => {
            lemma_within_concat(names_in(*h), names_in(*tl), u);
            lemma_known_fewer(u, names_in(*h), ren, st.used);
            lemma_known_fewer(u, names_in(*tl), ren, st.used);
            let (x, s1) = renamed(*h, ren, st);
            lemma_renamed_names(*h, ren, st);
            lemma_known_more_used(names_in(*tl), ren, st.used, s1.used);
            let (y, s2) = renamed(*tl, ren, s1);
            lemma_renamed_names(*tl, ren, s1);
            lemma_all_used_more(names_in(x), s1.used, s2.used);
            lemma_all_used_concat(names_in(x), names_in(y), s2.used);
        },
        Term::Car(v) => lemma_renamed_names(*v, ren, st),
        Term::Cdr(v) => lemma_renamed_names(*v, ren, st),
        Term::Null(v) => lemma_renamed_names(*v, ren, st),
        _ => {},
    }
}

proof fn lemma_all_used_more(names: Seq<Seq<char>>, used: Set<Seq<char>>, more: Set<Seq<char>>)
    requires
        all_used(names, used),
        used.subset_of(more),
    ensures
        all_used(names, more),
{
}

proof fn lemma_all_used_concat(a: Seq<Seq<char>>, b: Seq<Seq<char>>, used: Set<Seq<char>>)
    requires
        all_used(a, used),
        all_used(b, used),
    ensures
        all_used(a + b, used),
{
    broadcast use vstd::seq_lib::lemma_seq_concat_contains_all_elements;

}

proof fn lemma_renamed_let_names(t: Term, ren: Renaming, st: FreshState)
    requires
        t is Let,
        st.used.finite(),
        known(names_in(t), ren, st.used),
    ensures
        renamed(t, ren, st).1.used.finite(),
        st.used.subset_of(renamed(t, ren, st).1.used),
        all_used(names_in(renamed(t, ren, st).0), renamed(t, ren, st).1.used),
    decreases t, 0nat,
{
    let bindings = t->Let_bindings;
    let body = *t->Let_body;
    let u = names_in(t);
    lemma_within_concat(names_in_bindings(bindings), names_in(body), u);
    lemma_known_fewer(u, names_in_bindings(bindings), ren, st.used);
    let (values, s1) = renamed_values(bindings, ren, st);
    lemma_renamed_values_names(bindings, ren, st);
    let (bs, ren2, s2) = freshen(values, ren, s1);
    lemma_freshen(values, ren, s1);
    let extra = Seq::new(values.len(), |i: int| (values[i].0, bs[i].0));
    assert(known(names_in(body), ren2, s2.used)) by {
        assert forall|n: Seq<char>| #[trigger] names_in(body).contains(n) implies s2.used.contains(n)
            && s2.used.contains(renamed_to(ren2, n)) by {
            assert(u.contains(n));
            lemma_renamed_to_extended(ren, extra, n);
            if exists|i: int| 0 <= i < extra.len() && extra[i].0 == n {
                let i = choose|i: int|
                    0 <= i < extra.len() && extra[i].0 == n && (forall|j: int| i < j < extra.len() ==> extra[j].0 != n)
                        && renamed_to(ren + extra, n) == extra[i].1;
                assert(s2.used.contains(bs[i].0));
            }
        }
    }
    lemma_renamed_names(body, ren2, s2);
    let (b, s3) = renamed(body, ren2, s2);
    assert(all_used(names_in_bindings(bs), s3.used)) by {
        assert forall|n: Seq<char>| #[trigger] names_in_bindings(bs).contains(n) implies s3.used.contains(n) by {
            lemma_names_in_bindings_parts(bs, n);
            if exists|i: int| 0 <= i < bs.len() && bs[i].0 == n {
                let i = choose|i: int| 0 <= i < bs.len() && bs[i].0 == n;
                assert(s2.used.contains(bs[i].0));
            } else {
                let i = choose|i: int| 0 <= i < bs.len() && names_in(bs[i].1).contains(n);
                assert(bs[i].1 == values[i].1);
                assert(s1.used.contains(n));
            }
        }
    }
    lemma_all_used_concat(names_in_bindings(bs), names_in(b), s3.used);
}

proof fn lemma_renamed_all_names(s: Seq<Term>, ren: Renaming, st: FreshState)
    requires
        st.used.finite(),
        known(names_in_all(s), ren, st.used),
    ensures
        renamed_all(s, ren, st).1.used.finite(),
        st.used.subset_of(renamed_all(s, ren, st).1.used),
        all_used(names_in_all(renamed_all(s, ren, st).0), renamed_all(s, ren, st).1.used),
    decreases s, 1nat,
{
    if s.len() > 0 {
        lemma_names_in_all_within(s);
        lemma_known_fewer(names_in_all(s), names_in_all(s.drop_last()), ren, st.used);
        lemma_known_fewer(names_in_all(s), names_in(s.last()), ren, st.used);
        let (front, s1) = renamed_all(s.drop_last(), ren, st);
        lemma_renamed_all_names(s.drop_last(), ren, st);
        lemma_known_more_used(names_in(s.last()), ren, st.used, s1.used);
        lemma_renamed_names(s.last(), ren, s1);
        let (r, s2) = renamed_all(s, ren, st);
        assert(r.drop_last() =~= front);
        lemma_all_used_more(names_in_all(front), s1.used, s2.used);
        lemma_all_used_concat(names_in_all(front), names_in(r.last()), s2.used);
    }
}

/// The values of a `let`, renamed one after another.
proof fn lemma_renamed_values_names(s: Seq<(Seq<char>, Term)>, ren: Renaming, st: FreshState)
    requires
        st.used.finite(),
        known(names_in_bindings(s), ren, st.used),
    ensures
        ({
            let (vals, s1) = renamed_values(s, ren, st);
            &&& vals.len() == s.len()
            &&& forall|i: int| 0 <= i < s.len() ==> (#[trigger] vals[i]).0 == s[i].0
            &&& s1.used.finite()
            &&& st.used.subset_of(s1.used)
            &&& forall|i: int| 0 <= i < s.len() ==> all_used(names_in(#[trigger] vals[i].1), s1.used)
        }),
    decreases s, 1nat,
{
    if s.len() > 0 {
        lemma_names_in_bindings_within(s);
        lemma_known_fewer(names_in_bindings(s), names_in_bindings(s.drop_last()), ren, st.used);
        lemma_known_fewer(names_in_bindings(s), names_in(s.last().1), ren, st.used);
        let (front, s1) = renamed_values(s.drop_last(), ren, st);
        lemma_renamed_values_names(s.drop_last(), ren, st);
        lemma_known_more_used(names_in(s.last().1), ren, st.used, s1.used);
        lemma_renamed_names(s.last().1, ren, s1);
        let (vals, s2) = renamed_values(s, ren, st);
        assert forall|i: int| 0 <= i < s.len() implies (#[trigger] vals[i]).0 == s[i].0 by {
            if i < s.len() - 1 {
                assert(vals[i] == front[i]);
                assert(s.drop_last()[i] == s[i]);
            }
        }
        assert forall|i: int| 0 <= i < s.len() implies all_used(names_in(#[trigger] vals[i].1), s2.used) by {
            if i < s.len() - 1 {
                assert(vals[i] == front[i]);
                lemma_all_used_more(names_in(front[i].1), s1.used, s2.used);
            }
        }
    }
}

// ---------------------------------------------------------------------------
// What renaming keeps
// ---------------------------------------------------------------------------

/// No `let` value in `t` mentions a name bound earlier in the same `let`:
/// its bindings could as well all be made at once.
pub open spec fn parallel_safe(t: Term) -> bool
    decreases t,
{
    match t {
        Term::Let { bindings, body } => parallel_safe_bindings(bindings) && parallel_safe(*body),
        Term::Primitive { args, .. } => parallel_safe_all(args),
        Term::Call { args, .. } => parallel_safe_all(args),
        Term::If { condition, then_branch, else_branch } => parallel_safe(*condition) && parallel_safe(*then_branch)
            && parallel_safe(*else_branch),
        Term::Cons(h, tl) => parallel_safe(*h) && parallel_safe(*tl),
        Term::Car(v) => parallel_safe(*v),
        Term::Cdr(v) => parallel_safe(*v),
        Term::Null(v) => parallel_safe(*v),
        _ => true,
    }
}

pub open spec fn parallel_safe_all(s: Seq<Term>) -> bool
    decreases s,
{
    s.len() == 0 || (parallel_safe_all(s.drop_last()) && parallel_safe(s.last()))
}

pub open spec fn parallel_safe_bindings(s: Seq<(Seq<char>, Term)>) -> bool
    decreases s,
{
    s.len() == 0 || {
        &&& parallel_safe_bindings(s.drop_last())
        &&& parallel_safe(s.last().1)
        &&& forall|n: Seq<char>| #[trigger] bound_names(s.drop_last()).contains(n) ==> !names_in(s.last().1).contains(n)
    }
}

/// Each name of `names` that `e1` binds, `e2` binds under its new name to the
/// same value.
pub open spec fn renames_scope(
    ren: Renaming,
    e1: Map<Seq<char>, Value>,
    e2: Map<Seq<char>, Value>,
    names: Seq<Seq<char>>,
) -> bool {
    forall|n: Seq<char>|
        #[trigger] names.contains(n) && e1.contains_key(n) ==> e2.contains_key(renamed_to(ren, n)) && e2[renamed_to(
            ren,
            n,
        )] == e1[n]
}

proof fn lemma_renames_fewer(
    ren: Renaming,
    e1: Map<Seq<char>, Value>,
    e2: Map<Seq<char>, Value>,
    names: Seq<Seq<char>>,
    fewer: Seq<Seq<char>>,
)
    requires
        renames_scope(ren, e1, e2, names),
        within(fewer, names),
    ensures
        renames_scope(ren, e1, e2, fewer),
{
    assert forall|n: Seq<char>| #[trigger] fewer.contains(n) && e1.contains_key(n) implies e2.contains_key(
        renamed_to(ren, n),
    ) && e2[renamed_to(ren, n)] == e1[n] by {
        assert(names.contains(n));
    }
}

/// Every name an expression reads is among the names it mentions.
proof fn lemma_uses_within_names(t: Term)
    ensures
        within(uses(t), names_in(t)),
    decreases t,
{
    broadcast use vstd::seq_lib::lemma_seq_concat_contains_all_elements;

    match t {
        Term::Primitive { args, .. } => lemma_uses_all_within_names(args),
        Term::Call { callee, args } => lemma_uses_all_within_names(args),
        Term::If { condition, then_branch, else_branch } => {
            lemma_uses_within_names(*condition);
            lemma_uses_within_names(*then_branch);
            lemma_uses_within_names(*else_branch);
        },
        Term::Let { bindings, body } => {
            lemma_uses_bindings_within_names(bindings);
            lemma_uses_within_names(*body);
        },
        Term::Cons(h, tl) => {
            lemma_uses_within_names(*h);
            lemma_uses_within_names(*tl);
        },
        Term::Car(v) => lemma_uses_within_names(*v),
        Term::Cdr(v) => lemma_uses_within_names(*v),
        Term::Null(v) => lemma_uses_within_names(*v),
        _ => {},
    }
}

proof fn lemma_uses_all_within_names(s: Seq<Term>)
    ensures
        within(uses_all(s), names_in_all(s)),
    decreases s,
{
    broadcast use vstd::seq_lib::lemma_seq_concat_contains_all_elements;

    if s.len() > 0 {
        lemma_uses_all_within_names(s.drop_last());
        lemma_uses_within_names(s.last());
    }
}

proof fn lemma_uses_bindings_within_names(s: Seq<(Seq<char>, Term)>)
    ensures
        within(uses_bindings(s), names_in_bindings(s)),
    decreases s,
{
    broadcast use vstd::seq_lib::lemma_seq_concat_contains_all_elements;

    if s.len() > 0 {
        lemma_uses_bindings_within_names(s.drop_last());
        lemma_uses_within_names(s.last().1);
    }
}

/// A `let` whose bindings take fresh names, each value giving what the
/// value it renames gives: every name of `names` keeps its value under the
/// extended renaming, and every other name keeps its own binding.
proof fn lemma_fresh_scope(
    defs: Seq<DefTerm>,
    s: Seq<(Seq<char>, Term)>,
    bs: Seq<(Seq<char>, Term)>,
    ren: Renaming,
    e1: Map<Seq<char>, Value>,
    e2: Map<Seq<char>, Value>,
    fuel: nat,
    used: Set<Seq<char>>,
    names: Seq<Seq<char>>,
)
    requires
        bs.len() == s.len(),
        forall|i: int| 0 <= i < bs.len() ==> !used.contains(#[trigger] bs[i].0),
        forall|i: int, j: int| 0 <= i < j < bs.len() ==> bs[i].0 != bs[j].0,
        forall|i: int| 0 <= i < bs.len() ==> all_used(names_in(#[trigger] bs[i].1), used),
        forall|i: int|
            0 <= i < s.len() && evaluated(defs, #[trigger] s[i].1, e1, fuel) is Some ==> evaluated(defs, bs[i].1, e2, fuel)
                == evaluated(defs, s[i].1, e1, fuel),
        parallel_safe_bindings(s),
        renames_scope(ren, e1, e2, names),
        known(names, ren, used),
        bound_in(defs, s, e1, fuel) is Some,
    ensures
        bound_in(defs, bs, e2, fuel) is Some,
        renames_scope(
            ren + Seq::new(s.len(), |i: int| (s[i].0, bs[i].0)),
            bound_in(defs, s, e1, fuel).unwrap(),
            bound_in(defs, bs, e2, fuel).unwrap(),
            names,
        ),
        forall|n: Seq<char>|
            !(#[trigger] bound_names(s).contains(n)) ==> bound_in(defs, s, e1, fuel).unwrap().contains_key(n)
                == e1.contains_key(n) && (e1.contains_key(n) ==> bound_in(defs, s, e1, fuel).unwrap()[n] == e1[n]),
        forall|m: Seq<char>|
            #[trigger] used.contains(m) ==> bound_in(defs, bs, e2, fuel).unwrap().contains_key(m) == e2.contains_key(m)
                && (e2.contains_key(m) ==> bound_in(defs, bs, e2, fuel).unwrap()[m] == e2[m]),
    decreases s.len(),
{
    broadcast use vstd::seq_lib::lemma_seq_contains_after_push;

    if s.len() > 0 {
        let last = s.len() - 1;
        let sf = s.drop_last();
        let bf = bs.drop_last();
        assert forall|i: int| 0 <= i < bf.len() implies !used.contains(#[trigger] bf[i].0) by {
            assert(bf[i] == bs[i]);
        }
        assert forall|i: int, j: int| 0 <= i < j < bf.len() implies bf[i].0 != bf[j].0 by {
            assert(bf[i] == bs[i] && bf[j] == bs[j]);
        }
        assert forall|i: int| 0 <= i < bf.len() implies all_used(names_in(#[trigger] bf[i].1), used) by {
            assert(bf[i] == bs[i]);
        }
        assert forall|i: int|
            0 <= i < sf.len() && evaluated(defs, #[trigger] sf[i].1, e1, fuel) is Some implies evaluated(
            defs,
            bf[i].1,
            e2,
            fuel,
        ) == evaluated(defs, sf[i].1, e1, fuel) by {
            assert(sf[i] == s[i] && bf[i] == bs[i]);
        }
        lemma_fresh_scope(defs, sf, bf, ren, e1, e2, fuel, used, names);
        let inner1 = bound_in(defs, sf, e1, fuel).unwrap();
        let inner2 = bound_in(defs, bf, e2, fuel).unwrap();
        let x = s.last().0;
        let f = bs.last().0;
        assert(s[last] == s.last() && bs[last] == bs.last());
        // The last value reads no name bound before it in this `let`.
        lemma_uses_within_names(s.last().1);
        assert(agree_on(inner1, e1, uses(s.last().1))) by {
            assert forall|n: Seq<char>| #[trigger] uses(s.last().1).contains(n) implies inner1.contains_key(n)
                == e1.contains_key(n) && (inner1.contains_key(n) ==> inner1[n] == e1[n]) by {
                assert(names_in(s.last().1).contains(n));
                assert(!bound_names(sf).contains(n));
            }
        }
        lemma_agreeing_scopes(defs, s.last().1, inner1, e1, fuel);
        lemma_uses_within_names(bs.last().1);
        assert(agree_on(inner2, e2, uses(bs.last().1))) by {
            assert forall|n: Seq<char>| #[trigger] uses(bs.last().1).contains(n) implies inner2.contains_key(n)
                == e2.contains_key(n) && (inner2.contains_key(n) ==> inner2[n] == e2[n]) by {
                assert(names_in(bs.last().1).contains(n));
                assert(used.contains(n));
            }
        }
        lemma_agreeing_scopes(defs, bs.last().1, inner2, e2, fuel);
        let v = evaluated(defs, s.last().1, inner1, fuel).unwrap();
        let o1 = inner1.insert(x, v);
        let o2 = inner2.insert(f, v);
        let extra = Seq::new(s.len(), |i: int| (s[i].0, bs[i].0));
        let extra_front = Seq::new(sf.len(), |i: int| (sf[i].0, bf[i].0));
        assert(extra.drop_last() =~= extra_front);
        assert((ren + extra).drop_last() =~= ren + extra_front);
        assert(bound_names(s).drop_last() =~= bound_names(sf));
        assert forall|n: Seq<char>| #[trigger] names.contains(n) && o1.contains_key(n) implies o2.contains_key(
            renamed_to(ren + extra, n),
        ) && o2[renamed_to(ren + extra, n)] == o1[n] by {
            if n != x {
                let m = renamed_to(ren + extra_front, n);
                assert(renamed_to(ren + extra, n) == m);
                lemma_renamed_to_extended(ren, extra_front, n);
                if exists|i: int| 0 <= i < extra_front.len() && extra_front[i].0 == n {
                    let i = choose|i: int|
                        0 <= i < extra_front.len() && extra_front[i].0 == n && (forall|j: int|
                            i < j < extra_front.len() ==> extra_front[j].0 != n) && renamed_to(ren + extra_front, n)
                            == extra_front[i].1;
                    assert(m == bs[i].0);
                    assert(bs[i].0 != bs[last].0);
                } else {
                    assert(used.contains(renamed_to(ren, n)));
                    assert(m != f);
                }
            }
        }
    }
}

/// Renaming variables and giving every `let` fresh names never changes a
/// computed value: each name read is found under its new name with the same
/// value.
pub proof fn lemma_renamed_keeps_value(
    defs: Seq<DefTerm>,
    t: Term,
    ren: Renaming,
    st: FreshState,
    e1: Map<Seq<char>, Value>,
    e2: Map<Seq<char>, Value>,
    fuel: nat,
)
    requires
        st.used.finite(),
        known(names_in(t), ren, st.used),
        renames_scope(ren, e1, e2, names_in(t)),
        parallel_safe(t),
        evaluated(defs, t, e1, fuel) is Some,
    ensures
        evaluated(defs, renamed(t, ren, st).0, e2, fuel) == evaluated(defs, t, e1, fuel),
    decreases t, 1nat,
{
    broadcast use vstd::seq_lib::lemma_seq_concat_contains_all_elements;

    let u = names_in(t);
    match t {
        Term::Var(n) => {
            assert(u[0] == n);
            assert(u.contains(n));
        },
        Term::Primitive { op, args } => {
            lemma_renamed_all_keeps_values(defs, args, ren, st, e1, e2, fuel);
            if args.len() == 2 {
                lemma_parallel_safe_each(args);
            }
        },
        Term::Call { callee, args } => {
            lemma_within_concat(seq![callee], names_in_all(args), u);
            lemma_known_fewer(u, names_in_all(args), ren, st.used);
            lemma_renames_fewer(ren, e1, e2, u, names_in_all(args));
            lemma_renamed_all_keeps_values(defs, args, ren, st, e1, e2, fuel);
        },
        Term::If { condition, then_branch, else_branch } => {
            let c0 = names_in(*condition);
            let a0 = names_in(*then_branch);
            let b0 = names_in(*else_branch);
            lemma_within_concat(c0 + a0, b0, u);
            lemma_within_concat(c0, a0, u);
            lemma_known_fewer(u, c0, ren, st.used);
            lemma_known_fewer(u, a0, ren, st.used);
            lemma_known_fewer(u, b0, ren, st.used);
            lemma_renames_fewer(ren, e1, e2, u, c0);
            lemma_renames_fewer(ren, e1, e2, u, a0);
            lemma_renames_fewer(ren, e1, e2, u, b0);
            let (c, s1) = renamed(*condition, ren, st);
            lemma_renamed_names(*condition, ren, st);
            lemma_renamed_keeps_value(defs, *condition, ren, st, e1, e2, fuel);
            let (a, s2) = renamed(*then_branch, ren, s1);
            lemma_known_more_used(a0, ren, st.used, s1.used);
            lemma_renamed_names(*then_branch, ren, s1);
            lemma_known_more_used(b0, ren, st.used, s2.used);
            if let Some(Value::Num(k)) = evaluated(defs, *condition, e1, fuel) {
                if k == 0 {
                    lemma_renamed_keeps_value(defs, *else_branch, ren, s2, e1, e2, fuel);
                } else {
                    lemma_renamed_keeps_value(defs, *then_branch, ren, s1, e1, e2, fuel);
                }
            }
        },
        Term::Let { .. } => lemma_renamed_let_keeps_value(defs, t, ren, st, e1, e2, fuel),
        Term::Cons(h, tl) => {
            lemma_within_concat(names_in(*h), names_in(*tl), u);
            lemma_known_fewer(u, names_in(*h), ren, st.used);
            lemma_known_fewer(u, names_in(*tl), ren, st.used);
            lemma_renames_fewer(ren, e1, e2, u, names_in(*h));
            lemma_renames_fewer(ren, e1, e2, u, names_in(*tl));
            let (x, s1) = renamed(*h, ren, st);
            lemma_renamed_names(*h, ren, st);
            lemma_renamed_keeps_value(defs, *h, ren, st, e1, e2, fuel);
            lemma_known_more_used(names_in(*tl), ren, st.used, s1.used);
            lemma_renamed_keeps_value(defs, *tl, ren, s1, e1, e2, fuel);
        },
        Term::Car(v) => lemma_renamed_keeps_value(defs, *v, ren, st, e1, e2, fuel),
        Term::Cdr(v) => lemma_renamed_keeps_value(defs, *v, ren, st, e1, e2, fuel),
        Term::Null(v) => lemma_renamed_keeps_value(defs, *v, ren, st, e1, e2, fuel),
        _ => {},
    }
}

pub(crate) proof fn lemma_parallel_safe_each(s: Seq<Term>)
    requires
        parallel_safe_all(s),
    ensures
        forall|i: int| 0 <= i < s.len() ==> parallel_safe(#[trigger] s[i]),
    decreases s.len(),
{
    if s.len() > 0 {
        lemma_parallel_safe_each(s.drop_last());
        assert forall|i: int| 0 <= i < s.len() implies parallel_safe(#[trigger] s[i]) by {
            if i < s.len() - 1 {
                assert(s.drop_last()[i] == s[i]);
            }
        }
    }
}

proof fn lemma_renamed_all_keeps_values(
    defs: Seq<DefTerm>,
    s: Seq<Term>,
    ren: Renaming,
    st: FreshState,
    e1: Map<Seq<char>, Value>,
    e2: Map<Seq<char>, Value>,
    fuel: nat,
)
    requires
        st.used.finite(),
        known(names_in_all(s), ren, st.used),
        renames_scope(ren, e1, e2, names_in_all(s)),
        parallel_safe_all(s),
    ensures
        renamed_all(s, ren, st).0.len() == s.len(),
        forall|i: int|
            0 <= i < s.len() && evaluated(defs, #[trigger] s[i], e1, fuel) is Some ==> evaluated(
                defs,
                renamed_all(s, ren, st).0[i],
                e2,
                fuel,
            ) == evaluated(defs, s[i], e1, fuel),
        evaluated_all(defs, s, e1, fuel) is Some ==> evaluated_all(defs, renamed_all(s, ren, st).0, e2, fuel)
            == evaluated_all(defs, s, e1, fuel),
    decreases s, 1nat,
{
    if s.len() > 0 {
        lemma_names_in_all_within(s);
        lemma_known_fewer(names_in_all(s), names_in_all(s.drop_last()), ren, st.used);
        lemma_known_fewer(names_in_all(s), names_in(s.last()), ren, st.used);
        lemma_renames_fewer(ren, e1, e2, names_in_all(s), names_in_all(s.drop_last()));
        lemma_renames_fewer(ren, e1, e2, names_in_all(s), names_in(s.last()));
        let (front, s1) = renamed_all(s.drop_last(), ren, st);
        lemma_renamed_all_keeps_values(defs, s.drop_last(), ren, st, e1, e2, fuel);
        lemma_renamed_all_names(s.drop_last(), ren, st);
        lemma_known_more_used(names_in(s.last()), ren, st.used, s1.used);
        if evaluated(defs, s.last(), e1, fuel) is Some {
            lemma_renamed_keeps_value(defs, s.last(), ren, s1, e1, e2, fuel);
        }
        let (r, s2) = renamed_all(s, ren, st);
        assert(r.drop_last() =~= front);
        assert forall|i: int|
            0 <= i < s.len() && evaluated(defs, #[trigger] s[i], e1, fuel) is Some implies evaluated(
            defs,
            r[i],
            e2,
            fuel,
        ) == evaluated(defs, s[i], e1, fuel) by {
            if i < s.len() - 1 {
                assert(s.drop_last()[i] == s[i]);
                assert(r[i] == front[i]);
            }
        }
    }
}

proof fn lemma_renamed_values_keep(
    defs: Seq<DefTerm>,
    s: Seq<(Seq<char>, Term)>,
    ren: Renaming,
    st: FreshState,
    e1: Map<Seq<char>, Value>,
    e2: Map<Seq<char>, Value>,
    fuel: nat,
)
    requires
        st.used.finite(),
        known(names_in_bindings(s), ren, st.used),
        renames_scope(ren, e1, e2, names_in_bindings(s)),
        parallel_safe_bindings(s),
    ensures
        forall|i: int|
            0 <= i < s.len() && evaluated(defs, #[trigger] s[i].1, e1, fuel) is Some ==> evaluated(
                defs,
                renamed_values(s, ren, st).0[i].1,
                e2,
                fuel,
            ) == evaluated(defs, s[i].1, e1, fuel),
    decreases s, 1nat,
{
    if s.len() > 0 {
        lemma_names_in_bindings_within(s);
        lemma_known_fewer(names_in_bindings(s), names_in_bindings(s.drop_last()), ren, st.used);
        lemma_known_fewer(names_in_bindings(s), names_in(s.last().1), ren, st.used);
        lemma_renames_fewer(ren, e1, e2, names_in_bindings(s), names_in_bindings(s.drop_last()));
        lemma_renames_fewer(ren, e1, e2, names_in_bindings(s), names_in(s.last().1));
        let (front, s1) = renamed_values(s.drop_last(), ren, st);
        lemma_renamed_values_keep(defs, s.drop_last(), ren, st, e1, e2, fuel);
        lemma_renamed_values_names(s.drop_last(), ren, st);
        lemma_known_more_used(names_in(s.last().1), ren, st.used, s1.used);
        if evaluated(defs, s.last().1, e1, fuel) is Some {
            lemma_renamed_keeps_value(defs, s.last().1, ren, s1, e1, e2, fuel);
        }
        let (r, s2) = renamed_values(s, ren, st);
        assert forall|i: int|
            0 <= i < s.len() && evaluated(defs, #[trigger] s[i].1, e1, fuel) is Some implies evaluated(
            defs,
            r[i].1,
            e2,
            fuel,
        ) == evaluated(defs, s[i].1, e1, fuel) by {
            if i < s.len() - 1 {
                assert(s.drop_last()[i] == s[i]);
                assert(r[i] == front[i]);
            }
        }
    }
}

proof fn lemma_renamed_let_keeps_value(
    defs: Seq<DefTerm>,
    t: Term,
    ren: Renaming,
    st: FreshState,
    e1: Map<Seq<char>, Value>,
    e2: Map<Seq<char>, Value>,
    fuel: nat,
)
    requires
        t is Let,
        st.used.finite(),
        known(names_in(t), ren, st.used),
        renames_scope(ren, e1, e2, names_in(t)),
        parallel_safe(t),
        evaluated(defs, t, e1, fuel) is Some,
    ensures
        evaluated(defs, renamed(t, ren, st).0, e2, fuel) == evaluated(defs, t, e1, fuel),
    decreases t, 0nat,
{
    let bindings = t->Let_bindings;
    let body = *t->Let_body;
    let u = names_in(t);
    lemma_within_concat(names_in_bindings(bindings), names_in(body), u);
    lemma_known_fewer(u, names_in_bindings(bindings), ren, st.used);
    lemma_known_fewer(u, names_in(body), ren, st.used);
    lemma_renames_fewer(ren, e1, e2, u, names_in_bindings(bindings));
    lemma_renames_fewer(ren, e1, e2, u, names_in(body));
    let (values, s1) = renamed_values(bindings, ren, st);
    lemma_renamed_values_names(bindings, ren, st);
    lemma_renamed_values_keep(defs, bindings, ren, st, e1, e2, fuel);
    let (bs, ren2, s2) = freshen(values, ren, s1);
    lemma_freshen(values, ren, s1);
    let extra = Seq::new(values.len(), |i: int| (values[i].0, bs[i].0));
    assert(extra =~= Seq::new(bindings.len(), |i: int| (bindings[i].0, bs[i].0)));
    lemma_known_more_used(names_in(body), ren, st.used, s1.used);
    assert forall|i: int|
        0 <= i < bindings.len() && evaluated(defs, #[trigger] bindings[i].1, e1, fuel) is Some implies evaluated(
        defs,
        bs[i].1,
        e2,
        fuel,
    ) == evaluated(defs, bindings[i].1, e1, fuel) by {
        assert(bs[i].1 == values[i].1);
    }
    assert forall|i: int| 0 <= i < bs.len() implies all_used(names_in(#[trigger] bs[i].1), s1.used) by {
        assert(bs[i].1 == values[i].1);
    }
    lemma_fresh_scope(defs, bindings, bs, ren, e1, e2, fuel, s1.used, names_in(body));
    let o1 = bound_in(defs, bindings, e1, fuel).unwrap();
    let o2 = bound_in(defs, bs, e2, fuel).unwrap();
    assert(known(names_in(body), ren2, s2.used)) by {
        assert forall|n: Seq<char>| #[trigger] names_in(body).contains(n) implies s2.used.contains(n)
            && s2.used.contains(renamed_to(ren2, n)) by {
            lemma_renamed_to_extended(ren, extra, n);
            if exists|i: int| 0 <= i < extra.len() && extra[i].0 == n {
                let i = choose|i: int|
                    0 <= i < extra.len() && extra[i].0 == n && (forall|j: int| i < j < extra.len() ==> extra[j].0 != n)
                        && renamed_to(ren + extra, n) == extra[i].1;
                assert(s2.used.contains(bs[i].0));
            }
        }
    }
    lemma_renamed_keeps_value(defs, body, ren2, s2, o1, o2, fuel);
}

// ---------------------------------------------------------------------------
// Inlining
// ---------------------------------------------------------------------------

proof fn lemma_bind_fresh(params: Seq<Seq<char>>, args: Seq<Term>, k: nat, st: FreshState)
    requires
        st.used.finite(),
        k <= params.len(),
        k <= args.len(),
    ensures
        ({
            let (env, bs, s1) = bind_fresh(params, args, k, st);
            &&& env.len() == k
            &&& bs.len() == k
            &&& forall|i: int| 0 <= i < k ==> #[trigger] env[i] == (params[i], bs[i].0)
            &&& forall|i: int| 0 <= i < k ==> (#[trigger] bs[i]).1 == args[i]
            &&& forall|i: int| 0 <= i < k ==> !st.used.contains(#[trigger] bs[i].0)
            &&& forall|i: int| 0 <= i < k ==> s1.used.contains(#[trigger] bs[i].0)
            &&& forall|i: int, j: int| 0 <= i < j < k ==> bs[i].0 != bs[j].0
            &&& s1.used.finite()
            &&& st.used.subset_of(s1.used)
        }),
    decreases k,
{
    if k > 0 {
        let (env0, bs0, s0) = bind_fresh(params, args, (k - 1) as nat, st);
        lemma_bind_fresh(params, args, (k - 1) as nat, st);
        lemma_take_local_fresh(s0);
        let (env, bs, s1) = bind_fresh(params, args, k, st);
        assert forall|i: int| 0 <= i < k implies #[trigger] env[i] == (params[i], bs[i].0) by {
            if i < k - 1 {
                assert(env[i] == env0[i] && bs[i] == bs0[i]);
            }
        }
        assert forall|i: int| 0 <= i < k implies (#[trigger] bs[i]).1 == args[i] && !st.used.contains(bs[i].0)
            && s1.used.contains(bs[i].0) by {
            if i < k - 1 {
                assert(bs[i] == bs0[i]);
            }
        }
        assert forall|i: int, j: int| 0 <= i < j < k implies bs[i].0 != bs[j].0 by {
            assert(bs[i] == bs0[i]);
            if j < k - 1 {
                assert(bs[j] == bs0[j]);
            } else {
                assert(s0.used.contains(bs0[i].0));
            }
        }
    }
}

/// Where the parameters are bound, and to which value: the last of equal
/// names wins.
pub(crate) proof fn lemma_bound_params_lookup(params: Seq<Seq<char>>, values: Seq<Value>, n: Seq<char>)
    requires
        params.len() == values.len(),
    ensures
        bound_params(params, values).contains_key(n) <==> exists|i: int| 0 <= i < params.len() && params[i] == n,
        bound_params(params, values).contains_key(n) ==> exists|i: int|
            0 <= i < params.len() && params[i] == n && (forall|j: int| i < j < params.len() ==> params[j] != n)
                && bound_params(params, values)[n] == values[i],
    decreases params.len(),
{
    if params.len() > 0 {
        lemma_bound_params_lookup(params.drop_last(), values.drop_last(), n);
        let last = params.len() - 1;
        if params[last] != n {
            if exists|i: int| 0 <= i < params.len() && params[i] == n {
                let i = choose|i: int| 0 <= i < params.len() && params[i] == n;
                assert(params.drop_last()[i] == params[i]);
            }
            if bound_params(params, values).contains_key(n) {
                let i = choose|i: int|
                    0 <= i < params.drop_last().len() && params.drop_last()[i] == n && (forall|j: int|
                        i < j < params.drop_last().len() ==> params.drop_last()[j] != n) && bound_params(
                        params.drop_last(),
                        values.drop_last(),
                    )[n] == values.drop_last()[i];
                assert(params[i] == params.drop_last()[i]);
                assert(values[i] == values.drop_last()[i]);
                assert forall|j: int| i < j < params.len() implies params[j] != n by {
                    if j < last {
                        assert(params[j] == params.drop_last()[j]);
                    }
                }
            }
        } else {
            assert(params[last] == params.last());
            assert(values[last] == values.last());
        }
    }
}

pub(crate) proof fn lemma_evaluated_all_each(defs: Seq<DefTerm>, s: Seq<Term>, env: Map<Seq<char>, Value>, fuel: nat)
    requires
        evaluated_all(defs, s, env, fuel) is Some,
    ensures
        evaluated_all(defs, s, env, fuel).unwrap().len() == s.len(),
        forall|i: int|
            0 <= i < s.len() ==> evaluated(defs, #[trigger] s[i], env, fuel) == Some(
                evaluated_all(defs, s, env, fuel).unwrap()[i],
            ),
    decreases s.len(),
{
    if s.len() > 0 {
        lemma_evaluated_all_each(defs, s.drop_last(), env, fuel);
        let vs = evaluated_all(defs, s, env, fuel).unwrap();
        assert forall|i: int| 0 <= i < s.len() implies evaluated(defs, #[trigger] s[i], env, fuel) == Some(vs[i]) by {
            if i < s.len() - 1 {
                assert(s.drop_last()[i] == s[i]);
            }
        }
    }
}

/// Binding fresh names to values, one after another: each fresh name holds
/// its value, and names in use keep theirs.
proof fn lemma_fresh_arguments(
    defs: Seq<DefTerm>,
    bs: Seq<(Seq<char>, Term)>,
    values: Seq<Value>,
    e: Map<Seq<char>, Value>,
    fuel: nat,
    used: Set<Seq<char>>,
)
    requires
        values.len() == bs.len(),
        forall|i: int| 0 <= i < bs.len() ==> !used.contains(#[trigger] bs[i].0),
        forall|i: int, j: int| 0 <= i < j < bs.len() ==> bs[i].0 != bs[j].0,
        forall|i: int| 0 <= i < bs.len() ==> all_used(names_in(#[trigger] bs[i].1), used),
        forall|i: int| 0 <= i < bs.len() ==> evaluated(defs, #[trigger] bs[i].1, e, fuel) == Some(values[i]),
    ensures
        bound_in(defs, bs, e, fuel) is Some,
        forall|i: int|
            0 <= i < bs.len() ==> bound_in(defs, bs, e, fuel).unwrap().contains_key(#[trigger] bs[i].0) && bound_in(
                defs,
                bs,
                e,
                fuel,
            ).unwrap()[bs[i].0] == values[i],
        forall|m: Seq<char>|
            #[trigger] used.contains(m) ==> bound_in(defs, bs, e, fuel).unwrap().contains_key(m) == e.contains_key(m)
                && (e.contains_key(m) ==> bound_in(defs, bs, e, fuel).unwrap()[m] == e[m]),
    decreases bs.len(),
{
    if bs.len() > 0 {
        let last = bs.len() - 1;
        let bf = bs.drop_last();
        assert forall|i: int| 0 <= i < bf.len() implies !used.contains(#[trigger] bf[i].0) && all_used(
            names_in(bf[i].1),
            used,
        ) && evaluated(defs, bf[i].1, e, fuel) == Some(values.drop_last()[i]) by {
            assert(bf[i] == bs[i]);
        }
        assert forall|i: int, j: int| 0 <= i < j < bf.len() implies bf[i].0 != bf[j].0 by {
            assert(bf[i] == bs[i] && bf[j] == bs[j]);
        }
        lemma_fresh_arguments(defs, bf, values.drop_last(), e, fuel, used);
        let inner = bound_in(defs, bf, e, fuel).unwrap();
        assert(bs[last] == bs.last());
        lemma_uses_within_names(bs.last().1);
        assert(agree_on(inner, e, uses(bs.last().1))) by {
            assert forall|n: Seq<char>| #[trigger] uses(bs.last().1).contains(n) implies inner.contains_key(n)
                == e.contains_key(n) && (inner.contains_key(n) ==> inner[n] == e[n]) by {
                assert(names_in(bs.last().1).contains(n));
            }
        }
        lemma_agreeing_scopes(defs, bs.last().1, inner, e, fuel);
        assert forall|i: int|
            0 <= i < bs.len() implies bound_in(defs, bs, e, fuel).unwrap().contains_key(#[trigger] bs[i].0)
            && bound_in(defs, bs, e, fuel).unwrap()[bs[i].0] == values[i] by {
            if i < last {
                assert(bf[i] == bs[i]);
                assert(bs[i].0 != bs[last].0);
            }
        }
    }
}

/// A helper's body in place of a call computes what the call computed.
proof fn lemma_instantiated_keeps_value(
    defs: Seq<DefTerm>,
    h: DefTerm,
    args: Seq<Term>,
    st: FreshState,
    e: Map<Seq<char>, Value>,
    fuel: nat,
)
    requires
        st.used.finite(),
        all_used(names_in(h.body), st.used),
        forall|i: int| 0 <= i < args.len() ==> all_used(names_in(#[trigger] args[i]), st.used),
        !has_call(h.body),
        parallel_safe(h.body),
        h.params.len() == args.len(),
        evaluated_all(defs, args, e, fuel) is Some,
        evaluated(defs, h.body, bound_params(h.params, evaluated_all(defs, args, e, fuel).unwrap()), fuel) is Some,
    ensures
        evaluated(defs, instantiated(h, args, st).0, e, fuel) == evaluated(
            defs,
            h.body,
            bound_params(h.params, evaluated_all(defs, args, e, fuel).unwrap()),
            fuel,
        ),
{
    let values = evaluated_all(defs, args, e, fuel).unwrap();
    lemma_evaluated_all_each(defs, args, e, fuel);
    let e1 = bound_params(h.params, values);
    let body = h.body;
    if all_vars(args) {
        let ren = var_renaming(h.params, args);
        let empty: Renaming = Seq::empty();
        assert(empty + ren =~= ren);
        assert forall|n: Seq<char>| #[trigger] names_in(body).contains(n) implies st.used.contains(n)
            && st.used.contains(renamed_to(ren, n)) by {
            lemma_renamed_to_extended(empty, ren, n);
            if exists|i: int| 0 <= i < ren.len() && ren[i].0 == n {
                let i = choose|i: int|
                    0 <= i < ren.len() && ren[i].0 == n && (forall|j: int| i < j < ren.len() ==> ren[j].0 != n)
                        && renamed_to(empty + ren, n) == ren[i].1;
                assert(args[i] is Var);
                assert(names_in(args[i])[0] == args[i]->Var_0);
                assert(names_in(args[i]).contains(args[i]->Var_0));
            }
        }
        assert forall|n: Seq<char>| #[trigger] names_in(body).contains(n) && e1.contains_key(n) implies e.contains_key(
            renamed_to(ren, n),
        ) && e[renamed_to(ren, n)] == e1[n] by {
            lemma_bound_params_lookup(h.params, values, n);
            lemma_renamed_to_extended(empty, ren, n);
            let i = choose|i: int|
                0 <= i < h.params.len() && h.params[i] == n && (forall|j: int| i < j < h.params.len() ==> h.params[j] != n)
                    && e1[n] == values[i];
            assert(ren[i].0 == n);
            let k = choose|k: int|
                0 <= k < ren.len() && ren[k].0 == n && (forall|j: int| k < j < ren.len() ==> ren[j].0 != n)
                    && renamed_to(empty + ren, n) == ren[k].1;
            if k < i {
                assert(ren[i].0 != n);
            }
            if i < k {
                assert(h.params[k] != n);
            }
            assert(args[i] is Var);
            assert(evaluated(defs, args[i], e, fuel) == Some(values[i]));
        }
        lemma_renamed_keeps_value(defs, body, ren, st, e1, e, fuel);
    } else {
        let (env, bs, s1) = bind_fresh(h.params, args, h.params.len(), st);
        lemma_fresh_binding_keeps_value(defs, h, args, st, e, fuel);
        if bs.len() == 0 {
            assert(bound_in(defs, bs, e, fuel).unwrap() == e);
        }
    }
}

/// The body renamed to fresh names bound to the arguments computes, in the
/// scope those bindings make, what the body computes with its parameters
/// bound to the argument values.
proof fn lemma_fresh_binding_keeps_value(
    defs: Seq<DefTerm>,
    h: DefTerm,
    args: Seq<Term>,
    st: FreshState,
    e: Map<Seq<char>, Value>,
    fuel: nat,
)
    requires
        st.used.finite(),
        all_used(names_in(h.body), st.used),
        forall|i: int| 0 <= i < args.len() ==> all_used(names_in(#[trigger] args[i]), st.used),
        parallel_safe(h.body),
        h.params.len() == args.len(),
        evaluated_all(defs, args, e, fuel) is Some,
        evaluated(defs, h.body, bound_params(h.params, evaluated_all(defs, args, e, fuel).unwrap()), fuel) is Some,
    ensures
        ({
            let (env, bs, s1) = bind_fresh(h.params, args, h.params.len(), st);
            &&& known(names_in(h.body), env, s1.used)
            &&& bound_in(defs, bs, e, fuel) is Some
            &&& evaluated(defs, renamed(h.body, env, s1).0, bound_in(defs, bs, e, fuel).unwrap(), fuel) == evaluated(
                defs,
                h.body,
                bound_params(h.params, evaluated_all(defs, args, e, fuel).unwrap()),
                fuel,
            )
        }),
{
    let values = evaluated_all(defs, args, e, fuel).unwrap();
    lemma_evaluated_all_each(defs, args, e, fuel);
    let e1 = bound_params(h.params, values);
    let body = h.body;
    let (env, bs, s1) = bind_fresh(h.params, args, h.params.len(), st);
    lemma_bind_fresh(h.params, args, h.params.len(), st);
    assert forall|i: int| 0 <= i < bs.len() implies all_used(names_in(#[trigger] bs[i].1), st.used)
        && evaluated(defs, bs[i].1, e, fuel) == Some(values[i]) by {
        assert(bs[i].1 == args[i]);
    }
    lemma_fresh_arguments(defs, bs, values, e, fuel, st.used);
    let e2 = bound_in(defs, bs, e, fuel).unwrap();
    let empty: Renaming = Seq::empty();
    assert(empty + env =~= env);
    assert forall|n: Seq<char>| #[trigger] names_in(body).contains(n) implies s1.used.contains(n)
        && s1.used.contains(renamed_to(env, n)) by {
        lemma_renamed_to_extended(empty, env, n);
        if exists|i: int| 0 <= i < env.len() && env[i].0 == n {
            let i = choose|i: int|
                0 <= i < env.len() && env[i].0 == n && (forall|j: int| i < j < env.len() ==> env[j].0 != n)
                    && renamed_to(empty + env, n) == env[i].1;
            assert(env[i] == (h.params[i], bs[i].0));
        }
    }
    assert forall|n: Seq<char>| #[trigger] names_in(body).contains(n) && e1.contains_key(n) implies e2.contains_key(
        renamed_to(env, n),
    ) && e2[renamed_to(env, n)] == e1[n] by {
        lemma_bound_params_lookup(h.params, values, n);
        lemma_renamed_to_extended(empty, env, n);
        let i = choose|i: int|
            0 <= i < h.params.len() && h.params[i] == n && (forall|j: int| i < j < h.params.len() ==> h.params[j] != n)
                && e1[n] == values[i];
        assert(env[i] == (h.params[i], bs[i].0));
        let k = choose|k: int|
            0 <= k < env.len() && env[k].0 == n && (forall|j: int| k < j < env.len() ==> env[j].0 != n)
                && renamed_to(empty + env, n) == env[k].1;
        assert(env[k] == (h.params[k], bs[k].0));
        if k < i {
            assert(env[i].0 != n);
        }
        if i < k {
            assert(h.params[k] != n);
        }
    }
    lemma_renamed_keeps_value(defs, body, env, s1, e1, e2, fuel);
}

/// The helpers can stand in for calls: none calls anything, none has a `let`
/// value that reads a name of its own `let`, every name they mention is in
/// use, and each is the definition its name finds.
pub open spec fn inlinable(helpers: Seq<DefTerm>, defs: Seq<DefTerm>, used: Set<Seq<char>>) -> bool {
    &&& forall|i: int|
        0 <= i < helpers.len() ==> !has_call(#[trigger] helpers[i].body) && parallel_safe(helpers[i].body) && all_used(
            names_in(helpers[i].body),
            used,
        )
    &&& forall|name: Seq<char>| #[trigger] find_def(helpers, name) is Some ==> find_def(defs, name) == find_def(helpers, name)
}

proof fn lemma_inlinable_more_used(helpers: Seq<DefTerm>, defs: Seq<DefTerm>, used: Set<Seq<char>>, more: Set<Seq<char>>)
    requires
        inlinable(helpers, defs, used),
        used.subset_of(more),
    ensures
        inlinable(helpers, defs, more),
{
    assert forall|i: int| 0 <= i < helpers.len() implies !has_call(#[trigger] helpers[i].body) && parallel_safe(
        helpers[i].body,
    ) && all_used(names_in(helpers[i].body), more) by {
        lemma_all_used_more(names_in(helpers[i].body), used, more);
    }
}

proof fn lemma_find_def_member(defs: Seq<DefTerm>, name: Seq<char>)
    ensures
        find_def(defs, name) matches Some(d) ==> exists|i: int| 0 <= i < defs.len() && defs[i] == d,
    decreases defs.len(),
{
    if defs.len() > 0 {
        lemma_find_def_member(defs.drop_last(), name);
        if defs.last().name == name {
            assert(defs[defs.len() - 1] == defs.last());
        } else if let Some(d) = find_def(defs, name) {
            let i = choose|i: int| 0 <= i < defs.drop_last().len() && defs.drop_last()[i] == d;
            assert(defs[i] == defs.drop_last()[i]);
        }
    }
}

pub(crate) proof fn lemma_all_used_each(s: Seq<Term>, used: Set<Seq<char>>)
    requires
        all_used(names_in_all(s), used),
    ensures
        forall|i: int| 0 <= i < s.len() ==> all_used(names_in(#[trigger] s[i]), used),
    decreases s.len(),
{
    if s.len() > 0 {
        lemma_names_in_all_within(s);
        lemma_all_used_each(s.drop_last(), used);
        assert forall|i: int| 0 <= i < s.len() implies all_used(names_in(#[trigger] s[i]), used) by {
            if i < s.len() - 1 {
                assert(s.drop_last()[i] == s[i]);
            }
        }
    }
}

proof fn lemma_all_used_fewer(names: Seq<Seq<char>>, fewer: Seq<Seq<char>>, used: Set<Seq<char>>)
    requires
        all_used(names, used),
        within(fewer, names),
    ensures
        all_used(fewer, used),
{
    assert forall|n: Seq<char>| #[trigger] fewer.contains(n) implies used.contains(n) by {
        assert(names.contains(n));
    }
}

proof fn lemma_instantiated_names(h: DefTerm, args: Seq<Term>, st: FreshState)
    requires
        st.used.finite(),
        all_used(names_in(h.body), st.used),
        forall|i: int| 0 <= i < args.len() ==> all_used(names_in(#[trigger] args[i]), st.used),
        h.params.len() == args.len(),
    ensures
        instantiated(h, args, st).1.used.finite(),
        st.used.subset_of(instantiated(h, args, st).1.used),
        all_used(names_in(instantiated(h, args, st).0), instantiated(h, args, st).1.used),
{
    broadcast use vstd::seq_lib::lemma_seq_concat_contains_all_elements;

    let body = h.body;
    let empty: Renaming = Seq::empty();
    if all_vars(args) {
        let ren = var_renaming(h.params, args);
        assert(empty + ren =~= ren);
        assert forall|n: Seq<char>| #[trigger] names_in(body).contains(n) implies st.used.contains(n)
            && st.used.contains(renamed_to(ren, n)) by {
            lemma_renamed_to_extended(empty, ren, n);
            if exists|i: int| 0 <= i < ren.len() && ren[i].0 == n {
                let i = choose|i: int|
                    0 <= i < ren.len() && ren[i].0 == n && (forall|j: int| i < j < ren.len() ==> ren[j].0 != n)
                        && renamed_to(empty + ren, n) == ren[i].1;
                assert(args[i] is Var);
                assert(names_in(args[i])[0] == args[i]->Var_0);
                assert(names_in(args[i]).contains(args[i]->Var_0));
            }
        }
        lemma_renamed_names(body, ren, st);
    } else {
        let (env, bs, s1) = bind_fresh(h.params, args, h.params.len(), st);
        lemma_bind_fresh(h.params, args, h.params.len(), st);
        assert(empty + env =~= env);
        assert forall|n: Seq<char>| #[trigger] names_in(body).contains(n) implies s1.used.contains(n)
            && s1.used.contains(renamed_to(env, n)) by {
            lemma_renamed_to_extended(empty, env, n);
            if exists|i: int| 0 <= i < env.len() && env[i].0 == n {
                let i = choose|i: int|
                    0 <= i < env.len() && env[i].0 == n && (forall|j: int| i < j < env.len() ==> env[j].0 != n)
                        && renamed_to(empty + env, n) == env[i].1;
                assert(env[i] == (h.params[i], bs[i].0));
            }
        }
        lemma_renamed_names(body, env, s1);
        let (b, s2) = renamed(body, env, s1);
        assert(all_used(names_in_bindings(bs), s2.used)) by {
            assert forall|n: Seq<char>| #[trigger] names_in_bindings(bs).contains(n) implies s2.used.contains(n) by {
                lemma_names_in_bindings_parts(bs, n);
                if exists|i: int| 0 <= i < bs.len() && bs[i].0 == n {
                    let i = choose|i: int| 0 <= i < bs.len() && bs[i].0 == n;
                    assert(s1.used.contains(bs[i].0));
                } else {
                    let i = choose|i: int| 0 <= i < bs.len() && names_in(bs[i].1).contains(n);
                    assert(bs[i].1 == args[i]);
                    assert(st.used.contains(n));
                }
            }
        }
        lemma_all_used_concat(names_in_bindings(bs), names_in(b), s2.used);
    }
}

/// What inlining produces mentions only names in use afterwards.
proof fn lemma_inlined_names(helpers: Seq<DefTerm>, defs: Seq<DefTerm>, t: Term, st: FreshState)
    requires
        st.used.finite(),
        all_used(names_in(t), st.used),
        inlinable(helpers, defs, st.used),
    ensures
        inlined(t, helpers, st).1.used.finite(),
        st.used.subset_of(inlined(t, helpers, st).1.used),
        all_used(names_in(inlined(t, helpers, st).0), inlined(t, helpers, st).1.used),
    decreases t,
{
    let u = names_in(t);
    match t {
        Term::Call { callee, args } => {
            lemma_within_concat(seq![callee], names_in_all(args), u);
            assert(seq![callee][0] == callee);
            lemma_all_used_fewer(u, names_in_all(args), st.used);
            let (a, s1) = inlined_all(args, helpers, st);
            lemma_inlined_all_names(helpers, defs, args, st);
            lemma_all_used_each(a, s1.used);
            match find_def(helpers, callee) {
                Some(h) => if h.params.len() == a.len() {
                    lemma_find_def_member(helpers, callee);
                    lemma_inlinable_more_used(helpers, defs, st.used, s1.used);
                    let i = choose|i: int| 0 <= i < helpers.len() && helpers[i] == h;
                    lemma_instantiated_names(h, a, s1);
                } else {
                    lemma_all_used_concat(seq![callee], names_in_all(a), s1.used);
                },
                None => lemma_all_used_concat(seq![callee], names_in_all(a), s1.used),
            }
        },
        Term::Primitive { op, args } => lemma_inlined_all_names(helpers, defs, args, st),
        Term::If { condition, then_branch, else_branch } => {
            let c0 = names_in(*condition);
            let a0 = names_in(*then_branch);
            let b0 = names_in(*else_branch);
            lemma_within_concat(c0 + a0, b0, u);
            lemma_within_concat(c0, a0, u);
            lemma_all_used_fewer(u, c0, st.used);
            lemma_all_used_fewer(u, a0, st.used);
            lemma_all_used_fewer(u, b0, st.used);
            let (c, s1) = inlined(*condition, helpers, st);
            lemma_inlined_names(helpers, defs, *condition, st);
            lemma_all_used_more(a0, st.used, s1.used);
            lemma_inlinable_more_used(helpers, defs, st.used, s1.used);
            let (a, s2) = inlined(*then_branch, helpers, s1);
            lemma_inlined_names(helpers, defs, *then_branch, s1);
            lemma_all_used_more(b0, st.used, s2.used);
            lemma_inlinable_more_used(helpers, defs, st.used, s2.used);
            let (b, s3) = inlined(*else_branch, helpers, s2);
            lemma_inlined_names(helpers, defs, *else_branch, s2);
            lemma_all_used_more(names_in(c), s1.used, s3.used);
            lemma_all_used_more(names_in(a), s2.used, s3.used);
            lemma_all_used_concat(names_in(c), names_in(a), s3.used);
            lemma_all_used_concat(names_in(c) + names_in(a), names_in(b), s3.used);
        },
        Term::Let { bindings, body } => {
            lemma_within_concat(names_in_bindings(bindings), names_in(*body), u);
            lemma_all_used_fewer(u, names_in_bindings(bindings), st.used);
            lemma_all_used_fewer(u, names_in(*body), st.used);
            let (bs, s1) = inlined_bindings(bindings, helpers, st);
            lemma_inlined_bindings_names(helpers, defs, bindings, st);
            lemma_all_used_more(names_in(*body), st.used, s1.used);
            lemma_inlinable_more_used(helpers, defs, st.used, s1.used);
            let (b, s2) = inlined(*body, helpers, s1);
            lemma_inlined_names(helpers, defs, *body, s1);
            lemma_all_used_more(names_in_bindings(bs), s1.used, s2.used);
            lemma_all_used_concat(names_in_bindings(bs), names_in(b), s2.used);
        },
        Term::Cons(h, tl) => {
            lemma_within_concat(names_in(*h), names_in(*tl), u);
            lemma_all_used_fewer(u, names_in(*h), st.used);
            lemma_all_used_fewer(u, names_in(*tl), st.used);
            let (x, s1) = inlined(*h, helpers, st);
            lemma_inlined_names(helpers, defs, *h, st);
            lemma_all_used_more(names_in(*tl), st.used, s1.used);
            lemma_inlinable_more_used(helpers, defs, st.used, s1.used);
            let (y, s2) = inlined(*tl, helpers, s1);
            lemma_inlined_names(helpers, defs, *tl, s1);
            lemma_all_used_more(names_in(x), s1.used, s2.used);
            lemma_all_used_concat(names_in(x), names_in(y), s2.used);
        },
        Term::Car(v) => lemma_inlined_names(helpers, defs, *v, st),
        Term::Cdr(v) => lemma_inlined_names(helpers, defs, *v, st),
        Term::Null(v) => lemma_inlined_names(helpers, defs, *v, st),
        _ => {},
    }
}

proof fn lemma_inlined_all_names(helpers: Seq<DefTerm>, defs: Seq<DefTerm>, s: Seq<Term>, st: FreshState)
    requires
        st.used.finite(),
        all_used(names_in_all(s), st.used),
        inlinable(helpers, defs, st.used),
    ensures
        inlined_all(s, helpers, st).1.used.finite(),
        st.used.subset_of(inlined_all(s, helpers, st).1.used),
        all_used(names_in_all(inlined_all(s, helpers, st).0), inlined_all(s, helpers, st).1.used),
        inlined_all(s, helpers, st).0.len() == s.len(),
    decreases s,
{
    if s.len() > 0 {
        lemma_names_in_all_within(s);
        lemma_all_used_fewer(names_in_all(s), names_in_all(s.drop_last()), st.used);
        lemma_all_used_fewer(names_in_all(s), names_in(s.last()), st.used);
        let (front, s1) = inlined_all(s.drop_last(), helpers, st);
        lemma_inlined_all_names(helpers, defs, s.drop_last(), st);
        lemma_all_used_more(names_in(s.last()), st.used, s1.used);
        lemma_inlinable_more_used(helpers, defs, st.used, s1.used);
        lemma_inlined_names(helpers, defs, s.last(), s1);
        let (r, s2) = inlined_all(s, helpers, st);
        assert(r.drop_last() =~= front);
        lemma_all_used_more(names_in_all(front), s1.used, s2.used);
        lemma_all_used_concat(names_in_all(front), names_in(r.last()), s2.used);
    }
}

proof fn lemma_inlined_bindings_names(
    helpers: Seq<DefTerm>,
    defs: Seq<DefTerm>,
    s: Seq<(Seq<char>, Term)>,
    st: FreshState,
)
    requires
        st.used.finite(),
        all_used(names_in_bindings(s), st.used),
        inlinable(helpers, defs, st.used),
    ensures
        inlined_bindings(s, helpers, st).1.used.finite(),
        st.used.subset_of(inlined_bindings(s, helpers, st).1.used),
        all_used(names_in_bindings(inlined_bindings(s, helpers, st).0), inlined_bindings(s, helpers, st).1.used),
    decreases s,
{
    broadcast use vstd::seq_lib::lemma_seq_concat_contains_all_elements;

    if s.len() > 0 {
        lemma_names_in_bindings_within(s);
        lemma_all_used_fewer(names_in_bindings(s), names_in_bindings(s.drop_last()), st.used);
        lemma_all_used_fewer(names_in_bindings(s), names_in(s.last().1), st.used);
        let (front, s1) = inlined_bindings(s.drop_last(), helpers, st);
        lemma_inlined_bindings_names(helpers, defs, s.drop_last(), st);
        lemma_all_used_more(names_in(s.last().1), st.used, s1.used);
        lemma_inlinable_more_used(helpers, defs, st.used, s1.used);
        lemma_inlined_names(helpers, defs, s.last().1, s1);
        let (r, s2) = inlined_bindings(s, helpers, st);
        assert(r.drop_last() =~= front);
        assert(names_in_bindings(s).contains(s.last().0)) by {
            lemma_names_in_bindings_parts(s, s.last().0);
            assert(s[s.len() - 1] == s.last());
        }
        lemma_all_used_more(names_in_bindings(front), s1.used, s2.used);
        assert(seq![s.last().0][0] == s.last().0);
        lemma_all_used_concat(names_in_bindings(front), seq![s.last().0], s2.used);
        lemma_all_used_concat(names_in_bindings(front) + seq![s.last().0], names_in(r.last().1), s2.used);
    }
}

/// Inlining helpers never changes a computed value: each inlined call
/// computes what the call computed, with its arguments bound to fresh names
/// or, when they are variables, read in place.
pub proof fn lemma_inlined_keeps_value(
    defs: Seq<DefTerm>,
    helpers: Seq<DefTerm>,
    t: Term,
    st: FreshState,
    e: Map<Seq<char>, Value>,
    fuel: nat,
)
    requires
        st.used.finite(),
        all_used(names_in(t), st.used),
        inlinable(helpers, defs, st.used),
        evaluated(defs, t, e, fuel) is Some,
    ensures
        evaluated(defs, inlined(t, helpers, st).0, e, fuel) == evaluated(defs, t, e, fuel),
    decreases t,
{
    let u = names_in(t);
    match t {
        Term::Call { callee, args } => {
            lemma_within_concat(seq![callee], names_in_all(args), u);
            lemma_all_used_fewer(u, names_in_all(args), st.used);
            let (a, s1) = inlined_all(args, helpers, st);
            lemma_inlined_all_names(helpers, defs, args, st);
            lemma_inlined_all_keeps_values(defs, helpers, args, st, e, fuel);
            lemma_all_used_each(a, s1.used);
            if let Some(h) = find_def(helpers, callee) {
                if h.params.len() == a.len() {
                    lemma_find_def_member(helpers, callee);
                    lemma_inlinable_more_used(helpers, defs, st.used, s1.used);
                    let i = choose|i: int| 0 <= i < helpers.len() && helpers[i] == h;
                    let values = evaluated_all(defs, args, e, fuel).unwrap();
                    let e1 = bound_params(h.params, values);
                    lemma_call_free(defs, defs, h.body, e1, (fuel - 1) as nat, fuel);
                    lemma_instantiated_keeps_value(defs, h, a, s1, e, fuel);
                }
            }
        },
        Term::Primitive { op, args } => {
            lemma_inlined_all_keeps_values(defs, helpers, args, st, e, fuel);
        },
        Term::If { condition, then_branch, else_branch } => {
            let c0 = names_in(*condition);
            let a0 = names_in(*then_branch);
            let b0 = names_in(*else_branch);
            lemma_within_concat(c0 + a0, b0, u);
            lemma_within_concat(c0, a0, u);
            lemma_all_used_fewer(u, c0, st.used);
            lemma_all_used_fewer(u, a0, st.used);
            lemma_all_used_fewer(u, b0, st.used);
            let (c, s1) = inlined(*condition, helpers, st);
            lemma_inlined_names(helpers, defs, *condition, st);
            lemma_inlined_keeps_value(defs, helpers, *condition, st, e, fuel);
            lemma_all_used_more(a0, st.used, s1.used);
            lemma_inlinable_more_used(helpers, defs, st.used, s1.used);
            let (a, s2) = inlined(*then_branch, helpers, s1);
            lemma_inlined_names(helpers, defs, *then_branch, s1);
            lemma_all_used_more(b0, st.used, s2.used);
            lemma_inlinable_more_used(helpers, defs, st.used, s2.used);
            if let Some(Value::Num(k)) = evaluated(defs, *condition, e, fuel) {
                if k == 0 {
                    lemma_inlined_keeps_value(defs, helpers, *else_branch, s2, e, fuel);
                } else {
                    lemma_inlined_keeps_value(defs, helpers, *then_branch, s1, e, fuel);
                }
            }
        },
        Term::Let { bindings, body } => {
            lemma_within_concat(names_in_bindings(bindings), names_in(*body), u);
            lemma_all_used_fewer(u, names_in_bindings(bindings), st.used);
            lemma_all_used_fewer(u, names_in(*body), st.used);
            let (bs, s1) = inlined_bindings(bindings, helpers, st);
            lemma_inlined_bindings_keep_values(defs, helpers, bindings, st, e, fuel);
            lemma_inlined_bindings_names(helpers, defs, bindings, st);
            lemma_all_used_more(names_in(*body), st.used, s1.used);
            lemma_inlinable_more_used(helpers, defs, st.used, s1.used);
            let inner = bound_in(defs, bindings, e, fuel).unwrap();
            lemma_inlined_keeps_value(defs, helpers, *body, s1, inner, fuel);
        },
        Term::Cons(h, tl) => {
            lemma_within_concat(names_in(*h), names_in(*tl), u);
            lemma_all_used_fewer(u, names_in(*h), st.used);
            lemma_all_used_fewer(u, names_in(*tl), st.used);
            let (x, s1) = inlined(*h, helpers, st);
            lemma_inlined_names(helpers, defs, *h, st);
            lemma_inlined_keeps_value(defs, helpers, *h, st, e, fuel);
            lemma_all_used_more(names_in(*tl), st.used, s1.used);
            lemma_inlinable_more_used(helpers, defs, st.used, s1.used);
            lemma_inlined_keeps_value(defs, helpers, *tl, s1, e, fuel);
        },
        Term::Car(v) => lemma_inlined_keeps_value(defs, helpers, *v, st, e, fuel),
        Term::Cdr(v) => lemma_inlined_keeps_value(defs, helpers, *v, st, e, fuel),
        Term::Null(v) => lemma_inlined_keeps_value(defs, helpers, *v, st, e, fuel),
        _ => {},
    }
}

proof fn lemma_inlined_all_keeps_values(
    defs: Seq<DefTerm>,
    helpers: Seq<DefTerm>,
    s: Seq<Term>,
    st: FreshState,
    e: Map<Seq<char>, Value>,
    fuel: nat,
)
    requires
        st.used.finite(),
        all_used(names_in_all(s), st.used),
        inlinable(helpers, defs, st.used),
    ensures
        inlined_all(s, helpers, st).0.len() == s.len(),
        forall|i: int|
            0 <= i < s.len() && evaluated(defs, #[trigger] s[i], e, fuel) is Some ==> evaluated(
                defs,
                inlined_all(s, helpers, st).0[i],
                e,
                fuel,
            ) == evaluated(defs, s[i], e, fuel),
        evaluated_all(defs, s, e, fuel) is Some ==> evaluated_all(defs, inlined_all(s, helpers, st).0, e, fuel)
            == evaluated_all(defs, s, e, fuel),
    decreases s,
{
    if s.len() > 0 {
        lemma_names_in_all_within(s);
        lemma_all_used_fewer(names_in_all(s), names_in_all(s.drop_last()), st.used);
        lemma_all_used_fewer(names_in_all(s), names_in(s.last()), st.used);
        let (front, s1) = inlined_all(s.drop_last(), helpers, st);
        lemma_inlined_all_keeps_values(defs, helpers, s.drop_last(), st, e, fuel);
        lemma_inlined_all_names(helpers, defs, s.drop_last(), st);
        lemma_all_used_more(names_in(s.last()), st.used, s1.used);
        lemma_inlinable_more_used(helpers, defs, st.used, s1.used);
        if evaluated(defs, s.last(), e, fuel) is Some {
            lemma_inlined_keeps_value(defs, helpers, s.last(), s1, e, fuel);
        }
        let (r, s2) = inlined_all(s, helpers, st);
        assert(r.drop_last() =~= front);
        assert forall|i: int|
            0 <= i < s.len() && evaluated(defs, #[trigger] s[i], e, fuel) is Some implies evaluated(
            defs,
            r[i],
            e,
            fuel,
        ) == evaluated(defs, s[i], e, fuel) by {
            if i < s.len() - 1 {
                assert(s.drop_last()[i] == s[i]);
                assert(r[i] == front[i]);
            }
        }
    }
}

proof fn lemma_inlined_bindings_keep_values(
    defs: Seq<DefTerm>,
    helpers: Seq<DefTerm>,
    s: Seq<(Seq<char>, Term)>,
    st: FreshState,
    e: Map<Seq<char>, Value>,
    fuel: nat,
)
    requires
        st.used.finite(),
        all_used(names_in_bindings(s), st.used),
        inlinable(helpers, defs, st.used),
        bound_in(defs, s, e, fuel) is Some,
    ensures
        bound_in(defs, inlined_bindings(s, helpers, st).0, e, fuel) == bound_in(defs, s, e, fuel),
    decreases s,
{
    if s.len() > 0 {
        lemma_names_in_bindings_within(s);
        lemma_all_used_fewer(names_in_bindings(s), names_in_bindings(s.drop_last()), st.used);
        lemma_all_used_fewer(names_in_bindings(s), names_in(s.last().1), st.used);
        let (front, s1) = inlined_bindings(s.drop_last(), helpers, st);
        lemma_inlined_bindings_keep_values(defs, helpers, s.drop_last(), st, e, fuel);
        lemma_inlined_bindings_names(helpers, defs, s.drop_last(), st);
        lemma_all_used_more(names_in(s.last().1), st.used, s1.used);
        lemma_inlinable_more_used(helpers, defs, st.used, s1.used);
        let inner = bound_in(defs, s.drop_last(), e, fuel).unwrap();
        lemma_inlined_keeps_value(defs, helpers, s.last().1, s1, inner, fuel);
        let (r, s2) = inlined_bindings(s, helpers, st);
        assert(r.drop_last() =~= front);
    }
}

// ---------------------------------------------------------------------------
// Names bound by `let`s
// ---------------------------------------------------------------------------

/// Every name a `let` in `t` binds, in order.
pub open spec fn binders_of(t: Term) -> Seq<Seq<char>>
    decreases t,
{
    match t {
        Term::Let { bindings, body } => binders_of_bindings(bindings) + binders_of(*body),
        Term::Primitive { args, .. } => binders_of_all(args),
        Term::Call { args, .. } => binders_of_all(args),
        Term::If { condition, then_branch, else_branch } => binders_of(*condition) + binders_of(*then_branch)
            + binders_of(*else_branch),
        Term::Cons(h, tl) => binders_of(*h) + binders_of(*tl),
        Term::Car(v) => binders_of(*v),
        Term::Cdr(v) => binders_of(*v),
        Term::Null(v) => binders_of(*v),
        _ => Seq::empty(),
    }
}

pub open spec fn binders_of_all(s: Seq<Term>) -> Seq<Seq<char>>
    decreases s,
{
    if s.len() == 0 {
        Seq::empty()
    } else {
        binders_of_all(s.drop_last()) + binders_of(s.last())
    }
}

pub open spec fn binders_of_bindings(s: Seq<(Seq<char>, Term)>) -> Seq<Seq<char>>
    decreases s,
{
    if s.len() == 0 {
        Seq::empty()
    } else {
        binders_of_bindings(s.drop_last()) + seq![s.last().0] + binders_of(s.last().1)
    }
}

/// No two names of `a` are equal, and none is in `scope`.
pub open spec fn distinct_outside(a: Seq<Seq<char>>, scope: Seq<Seq<char>>) -> bool {
    &&& a.no_duplicates()
    &&& forall|n: Seq<char>| #[trigger] a.contains(n) ==> !scope.contains(n)
}

proof fn lemma_distinct_concat(a: Seq<Seq<char>>, b: Seq<Seq<char>>, scope: Seq<Seq<char>>)
    requires
        distinct_outside(a + b, scope),
    ensures
        distinct_outside(a, scope),
        distinct_outside(b, scope),
        distinct_outside(b, scope + a),
{
    broadcast use vstd::seq_lib::lemma_seq_concat_contains_all_elements;

    let ab = a + b;
    assert forall|i: int, j: int| 0 <= i < j < a.len() implies a[i] != a[j] by {
        assert(ab[i] == a[i] && ab[j] == a[j]);
    }
    assert forall|i: int, j: int| 0 <= i < j < b.len() implies b[i] != b[j] by {
        assert(ab[a.len() + i] == b[i] && ab[a.len() + j] == b[j]);
    }
    assert forall|n: Seq<char>| #[trigger] a.contains(n) implies !scope.contains(n) by {
        assert(ab.contains(n));
    }
    assert forall|n: Seq<char>| #[trigger] b.contains(n) implies !(scope + a).contains(n) && !scope.contains(n) by {
        assert(ab.contains(n));
        let j = choose|j: int| 0 <= j < b.len() && b[j] == n;
        assert(ab[a.len() + j] == n);
        if a.contains(n) {
            let i = choose|i: int| 0 <= i < a.len() && a[i] == n;
            assert(ab[i] == n);
        }
    }
}

/// Bindings whose names are all distinct and outside the scope shadow
/// nothing.
pub proof fn lemma_distinct_binders_unshadowed(t: Term, scope: Seq<Seq<char>>)
    requires
        distinct_outside(binders_of(t), scope),
    ensures
        unshadowed(t, scope),
    decreases t,
{
    broadcast use vstd::seq_lib::lemma_seq_concat_contains_all_elements;

    match t {
        Term::Let { bindings, body } => {
            lemma_distinct_concat(binders_of_bindings(bindings), binders_of(*body), scope);
            lemma_distinct_bindings_unshadowed(bindings, scope);
            lemma_binders_cover_names(bindings);
            let inner = scope + bound_names(bindings);
            assert(distinct_outside(binders_of(*body), inner)) by {
                assert forall|n: Seq<char>| #[trigger] binders_of(*body).contains(n) implies !inner.contains(n) by {
                    assert(!(scope + binders_of_bindings(bindings)).contains(n));
                }
            }
            lemma_distinct_binders_unshadowed(*body, inner);
        },
        Term::Primitive { args, .. } => lemma_distinct_all_unshadowed(args, scope),
        Term::Call { args, .. } => lemma_distinct_all_unshadowed(args, scope),
        Term::If { condition, then_branch, else_branch } => {
            lemma_distinct_concat(binders_of(*condition) + binders_of(*then_branch), binders_of(*else_branch), scope);
            lemma_distinct_concat(binders_of(*condition), binders_of(*then_branch), scope);
            lemma_distinct_binders_unshadowed(*condition, scope);
            lemma_distinct_binders_unshadowed(*then_branch, scope);
            lemma_distinct_binders_unshadowed(*else_branch, scope);
        },
        Term::Cons(h, tl) => {
            lemma_distinct_concat(binders_of(*h), binders_of(*tl), scope);
            lemma_distinct_binders_unshadowed(*h, scope);
            lemma_distinct_binders_unshadowed(*tl, scope);
        },
        Term::Car(v) => lemma_distinct_binders_unshadowed(*v, scope),
        Term::Cdr(v) => lemma_distinct_binders_unshadowed(*v, scope),
        Term::Null(v) => lemma_distinct_binders_unshadowed(*v, scope),
        _ => {},
    }
}

proof fn lemma_distinct_all_unshadowed(s: Seq<Term>, scope: Seq<Seq<char>>)
    requires
        distinct_outside(binders_of_all(s), scope),
    ensures
        unshadowed_all(s, scope),
    decreases s,
{
    if s.len() > 0 {
        lemma_distinct_concat(binders_of_all(s.drop_last()), binders_of(s.last()), scope);
        lemma_distinct_all_unshadowed(s.drop_last(), scope);
        lemma_distinct_binders_unshadowed(s.last(), scope);
    }
}

/// The names a `let` binds are among its binders.
proof fn lemma_binders_cover_names(s: Seq<(Seq<char>, Term)>)
    ensures
        within(bound_names(s), binders_of_bindings(s)),
    decreases s.len(),
{
    broadcast use vstd::seq_lib::lemma_seq_concat_contains_all_elements;
    broadcast use vstd::seq_lib::lemma_seq_contains_after_push;

    if s.len() > 0 {
        lemma_binders_cover_names(s.drop_last());
        assert(seq![s.last().0][0] == s.last().0);
        assert(seq![s.last().0].contains(s.last().0));
    }
}

proof fn lemma_distinct_bindings_unshadowed(s: Seq<(Seq<char>, Term)>, scope: Seq<Seq<char>>)
    requires
        distinct_outside(binders_of_bindings(s), scope),
    ensures
        unshadowed_bindings(s, scope),
    decreases s,
{
    broadcast use vstd::seq_lib::lemma_seq_concat_contains_all_elements;

    if s.len() > 0 {
        let front = binders_of_bindings(s.drop_last());
        let x = seq![s.last().0];
        lemma_distinct_concat(front + x, binders_of(s.last().1), scope);
        lemma_distinct_concat(front, x, scope);
        lemma_distinct_bindings_unshadowed(s.drop_last(), scope);
        lemma_binders_cover_names(s.drop_last());
        let before = scope + bound_names(s.drop_last());
        assert(x[0] == s.last().0);
        assert(x.contains(s.last().0));
        assert(!before.contains(s.last().0)) by {
            assert(!(scope + front).contains(s.last().0));
        }
        assert(distinct_outside(binders_of(s.last().1), before)) by {
            assert forall|n: Seq<char>| #[trigger] binders_of(s.last().1).contains(n) implies !before.contains(n) by {
                assert(!(scope + (front + x)).contains(n));
            }
        }
        lemma_distinct_binders_unshadowed(s.last().1, before);
    }
}

// ---------------------------------------------------------------------------
// Fresh names shadow nothing
// ---------------------------------------------------------------------------

/// No name of `scope` was taken from the supply between `before` and
/// `after`.
pub open spec fn avoids_window(scope: Seq<Seq<char>>, before: Set<Seq<char>>, after: Set<Seq<char>>) -> bool {
    forall|n: Seq<char>| #[trigger] scope.contains(n) ==> before.contains(n) || !after.contains(n)
}

proof fn lemma_avoids_narrower(
    scope: Seq<Seq<char>>,
    before: Set<Seq<char>>,
    after: Set<Seq<char>>,
    inner_before: Set<Seq<char>>,
    inner_after: Set<Seq<char>>,
)
    requires
        avoids_window(scope, before, after),
        before.subset_of(inner_before),
        inner_after.subset_of(after),
    ensures
        avoids_window(scope, inner_before, inner_after),
{
}

/// The supply only grows.
proof fn lemma_renamed_grows(t: Term, ren: Renaming, st: FreshState)
    requires
        st.used.finite(),
    ensures
        renamed(t, ren, st).1.used.finite(),
        st.used.subset_of(renamed(t, ren, st).1.used),
    decreases t, 1nat,
{
    match t {
        Term::Primitive { args, .. } => lemma_renamed_all_grows(args, ren, st),
        Term::Call { args, .. } => lemma_renamed_all_grows(args, ren, st),
        Term::If { condition, then_branch, else_branch } => {
            let (c, s1) = renamed(*condition, ren, st);
            lemma_renamed_grows(*condition, ren, st);
            let (a, s2) = renamed(*then_branch, ren, s1);
            lemma_renamed_grows(*then_branch, ren, s1);
            lemma_renamed_grows(*else_branch, ren, s2);
        },
        Term::Let { bindings, body } => {
            let (values, s1) = renamed_values(bindings, ren, st);
            lemma_renamed_values_grows(bindings, ren, st);
            let (bs, ren2, s2) = freshen(values, ren, s1);
            lemma_freshen(values, ren, s1);
            lemma_renamed_grows(*body, ren2, s2);
        },
        Term::Cons(h, tl) => {
            let (x, s1) = renamed(*h, ren, st);
            lemma_renamed_grows(*h, ren, st);
            lemma_renamed_grows(*tl, ren, s1);
        },
        Term::Car(v) => lemma_renamed_grows(*v, ren, st),
        Term::Cdr(v) => lemma_renamed_grows(*v, ren, st),
        Term::Null(v) => lemma_renamed_grows(*v, ren, st),
        _ => {},
    }
}

proof fn lemma_renamed_all_grows(s: Seq<Term>, ren: Renaming, st: FreshState)
    requires
        st.used.finite(),
    ensures
        renamed_all(s, ren, st).1.used.finite(),
        st.used.subset_of(renamed_all(s, ren, st).1.used),
    decreases s, 1nat,
{
    if s.len() > 0 {
        let (front, s1) = renamed_all(s.drop_last(), ren, st);
        lemma_renamed_all_grows(s.drop_last(), ren, st);
        lemma_renamed_grows(s.last(), ren, s1);
    }
}

proof fn lemma_renamed_values_grows(s: Seq<(Seq<char>, Term)>, ren: Renaming, st: FreshState)
    requires
        st.used.finite(),
    ensures
        renamed_values(s, ren, st).1.used.finite(),
        st.used.subset_of(renamed_values(s, ren, st).1.used),
        renamed_values(s, ren, st).0.len() == s.len(),
        forall|i: int| 0 <= i < s.len() ==> (#[trigger] renamed_values(s, ren, st).0[i]).0 == s[i].0,
    decreases s, 1nat,
{
    if s.len() > 0 {
        let (front, s1) = renamed_values(s.drop_last(), ren, st);
        lemma_renamed_values_grows(s.drop_last(), ren, st);
        lemma_renamed_grows(s.last().1, ren, s1);
        let (vals, s2) = renamed_values(s, ren, st);
        assert forall|i: int| 0 <= i < s.len() implies (#[trigger] vals[i]).0 == s[i].0 by {
            if i < s.len() - 1 {
                assert(vals[i] == front[i]);
                assert(s.drop_last()[i] == s[i]);
            }
        }
    }
}

/// Renaming gives every `let` a name taken from the supply, so the result
/// shadows no name of a scope that none of those names is in.
proof fn lemma_renamed_unshadowed(t: Term, ren: Renaming, st: FreshState, scope: Seq<Seq<char>>)
    requires
        st.used.finite(),
        avoids_window(scope, st.used, renamed(t, ren, st).1.used),
    ensures
        unshadowed(renamed(t, ren, st).0, scope),
    decreases t, 1nat,
{
    match t {
        Term::Primitive { args, .. } => lemma_renamed_all_unshadowed(args, ren, st, scope),
        Term::Call { args, .. } => lemma_renamed_all_unshadowed(args, ren, st, scope),
        Term::If { condition, then_branch, else_branch } => {
            let (c, s1) = renamed(*condition, ren, st);
            lemma_renamed_grows(*condition, ren, st);
            let (a, s2) = renamed(*then_branch, ren, s1);
            lemma_renamed_grows(*then_branch, ren, s1);
            let (b, s3) = renamed(*else_branch, ren, s2);
            lemma_renamed_grows(*else_branch, ren, s2);
            lemma_avoids_narrower(scope, st.used, s3.used, st.used, s1.used);
            lemma_avoids_narrower(scope, st.used, s3.used, s1.used, s2.used);
            lemma_avoids_narrower(scope, st.used, s3.used, s2.used, s3.used);
            lemma_renamed_unshadowed(*condition, ren, st, scope);
            lemma_renamed_unshadowed(*then_branch, ren, s1, scope);
            lemma_renamed_unshadowed(*else_branch, ren, s2, scope);
        },
        Term::Let { .. } => lemma_renamed_let_unshadowed(t, ren, st, scope),
        Term::Cons(h, tl) => {
            let (x, s1) = renamed(*h, ren, st);
            lemma_renamed_grows(*h, ren, st);
            let (y, s2) = renamed(*tl, ren, s1);
            lemma_renamed_grows(*tl, ren, s1);
            lemma_avoids_narrower(scope, st.used, s2.used, st.used, s1.used);
            lemma_avoids_narrower(scope, st.used, s2.used, s1.used, s2.used);
            lemma_renamed_unshadowed(*h, ren, st, scope);
            lemma_renamed_unshadowed(*tl, ren, s1, scope);
        },
        Term::Car(v) => lemma_renamed_unshadowed(*v, ren, st, scope),
        Term::Cdr(v) => lemma_renamed_unshadowed(*v, ren, st, scope),
        Term::Null(v) => lemma_renamed_unshadowed(*v, ren, st, scope),
        _ => {},
    }
}

proof fn lemma_renamed_all_unshadowed(s: Seq<Term>, ren: Renaming, st: FreshState, scope: Seq<Seq<char>>)
    requires
        st.used.finite(),
        avoids_window(scope, st.used, renamed_all(s, ren, st).1.used),
    ensures
        unshadowed_all(renamed_all(s, ren, st).0, scope),
    decreases s, 1nat,
{
    if s.len() > 0 {
        let (front, s1) = renamed_all(s.drop_last(), ren, st);
        lemma_renamed_all_grows(s.drop_last(), ren, st);
        let (x, s2) = renamed(s.last(), ren, s1);
        lemma_renamed_grows(s.last(), ren, s1);
        lemma_avoids_narrower(scope, st.used, s2.used, st.used, s1.used);
        lemma_avoids_narrower(scope, st.used, s2.used, s1.used, s2.used);
        lemma_renamed_all_unshadowed(s.drop_last(), ren, st, scope);
        lemma_renamed_unshadowed(s.last(), ren, s1, scope);
        let (r, _) = renamed_all(s, ren, st);
        assert(r.drop_last() =~= front);
    }
}

proof fn lemma_renamed_values_unshadowed(s: Seq<(Seq<char>, Term)>, ren: Renaming, st: FreshState, scope: Seq<Seq<char>>)
    requires
        st.used.finite(),
    ensures
        forall|i: int|
            0 <= i < s.len() && avoids_window(scope, st.used, renamed_values(s, ren, st).1.used) ==> unshadowed(
                #[trigger] renamed_values(s, ren, st).0[i].1,
                scope,
            ),
    decreases s, 1nat,
{
    if s.len() > 0 {
        let (front, s1) = renamed_values(s.drop_last(), ren, st);
        lemma_renamed_values_grows(s.drop_last(), ren, st);
        let (x, s2) = renamed(s.last().1, ren, s1);
        lemma_renamed_grows(s.last().1, ren, s1);
        lemma_renamed_values_unshadowed(s.drop_last(), ren, st, scope);
        let (vals, _) = renamed_values(s, ren, st);
        if avoids_window(scope, st.used, s2.used) {
            lemma_avoids_narrower(scope, st.used, s2.used, st.used, s1.used);
            lemma_avoids_narrower(scope, st.used, s2.used, s1.used, s2.used);
            lemma_renamed_unshadowed(s.last().1, ren, s1, scope);
        }
        assert forall|i: int|
            0 <= i < s.len() && avoids_window(scope, st.used, s2.used) implies unshadowed(#[trigger] vals[i].1, scope) by {
            if i < s.len() - 1 {
                assert(vals[i] == front[i]);
            }
        }
    }
}

proof fn lemma_renamed_let_unshadowed(t: Term, ren: Renaming, st: FreshState, scope: Seq<Seq<char>>)
    requires
        t is Let,
        st.used.finite(),
        avoids_window(scope, st.used, renamed(t, ren, st).1.used),
    ensures
        unshadowed(renamed(t, ren, st).0, scope),
    decreases t, 0nat,
{
    broadcast use vstd::seq_lib::lemma_seq_concat_contains_all_elements;

    let bindings = t->Let_bindings;
    let body = *t->Let_body;
    let (values, s1) = renamed_values(bindings, ren, st);
    lemma_renamed_values_grows(bindings, ren, st);
    let (bs, ren2, s2) = freshen(values, ren, s1);
    lemma_freshen(values, ren, s1);
    let (b, s3) = renamed(body, ren2, s2);
    lemma_renamed_grows(body, ren2, s2);
    lemma_bound_names_index(bs);
    // Each binding name is fresh, and each value shadows nothing in scope.
    assert forall|sc: Seq<Seq<char>>, i: int|
        0 <= i < values.len() && avoids_window(sc, st.used, s1.used) implies #[trigger] unshadowed(values[i].1, sc) by {
        lemma_renamed_values_unshadowed(bindings, ren, st, sc);
    }
    assert forall|i: int| 0 <= i <= bs.len() implies unshadowed_bindings(#[trigger] bs.take(i), scope) by {
        lemma_fresh_prefix_unshadowed(bs, values, st, s1, s2, s3, ren, bindings, scope, i);
    }
    assert(bs.take(bs.len() as int) =~= bs);
    let inner = scope + bound_names(bs);
    assert(avoids_window(inner, s2.used, s3.used)) by {
        assert forall|n: Seq<char>| #[trigger] inner.contains(n) implies s2.used.contains(n) || !s3.used.contains(n) by {
            if bound_names(bs).contains(n) {
                let i = choose|i: int| 0 <= i < bound_names(bs).len() && bound_names(bs)[i] == n;
                assert(bound_names(bs)[i] == bs[i].0);
            } else {
                assert(scope.contains(n));
            }
        }
    }
    lemma_renamed_unshadowed(body, ren2, s2, inner);
}

proof fn lemma_fresh_prefix_unshadowed(
    bs: Seq<(Seq<char>, Term)>,
    values: Seq<(Seq<char>, Term)>,
    st: FreshState,
    s1: FreshState,
    s2: FreshState,
    s3: FreshState,
    ren: Renaming,
    bindings: Seq<(Seq<char>, Term)>,
    scope: Seq<Seq<char>>,
    k: int,
)
    requires
        0 <= k <= bs.len(),
        st.used.finite(),
        forall|sc: Seq<Seq<char>>, i: int|
            0 <= i < values.len() && avoids_window(sc, st.used, s1.used) ==> #[trigger] unshadowed(values[i].1, sc),
        bs.len() == values.len(),
        forall|i: int| 0 <= i < bs.len() ==> (#[trigger] bs[i]).1 == values[i].1,
        forall|i: int| 0 <= i < bs.len() ==> !s1.used.contains(#[trigger] bs[i].0),
        forall|i: int| 0 <= i < bs.len() ==> s2.used.contains(#[trigger] bs[i].0),
        forall|i: int, j: int| 0 <= i < j < bs.len() ==> bs[i].0 != bs[j].0,
        st.used.subset_of(s1.used),
        s1.used.subset_of(s2.used),
        s2.used.subset_of(s3.used),
        avoids_window(scope, st.used, s3.used),
    ensures
        unshadowed_bindings(bs.take(k), scope),
    decreases k,
{
    broadcast use vstd::seq_lib::lemma_seq_concat_contains_all_elements;

    if k > 0 {
        lemma_fresh_prefix_unshadowed(bs, values, st, s1, s2, s3, ren, bindings, scope, k - 1);
        let pre = bs.take(k);
        assert(pre.drop_last() =~= bs.take(k - 1));
        assert(pre.last() == bs[k - 1]);
        let pre1 = bs.take(k - 1);
        let names1 = bound_names(pre1);
        let x = bs[k - 1].0;
        let before = scope + names1;
        lemma_bound_names_index(pre1);
        assert(!before.contains(x)) by {
            if names1.contains(x) {
                let j = choose|j: int| 0 <= j < names1.len() && names1[j] == x;
                assert(names1[j] == pre1[j].0);
                assert(pre1[j] == bs[j]);
            }
            if scope.contains(x) {
                assert(st.used.contains(x) || !s3.used.contains(x));
            }
        }
        assert(avoids_window(before, st.used, s1.used)) by {
            assert forall|n: Seq<char>| #[trigger] before.contains(n) implies st.used.contains(n) || !s1.used.contains(n) by {
                if names1.contains(n) {
                    let j = choose|j: int| 0 <= j < names1.len() && names1[j] == n;
                    assert(names1[j] == pre1[j].0);
                    assert(pre1[j] == bs[j]);
                } else {
                    assert(scope.contains(n));
                }
            }
        }
        assert(values[k - 1].1 == bs[k - 1].1);
        assert(unshadowed(values[k - 1].1, before));
    }
}

/// Adding names an expression never mentions to the scope keeps it
/// unshadowed.
proof fn lemma_unshadowed_extend(t: Term, scope: Seq<Seq<char>>, more: Seq<Seq<char>>)
    requires
        unshadowed(t, scope),
        forall|n: Seq<char>| #[trigger] more.contains(n) ==> !names_in(t).contains(n),
    ensures
        unshadowed(t, scope + more),
    decreases t,
{
    broadcast use vstd::seq_lib::lemma_seq_concat_contains_all_elements;

    match t {
        Term::Let { bindings, body } => {
            lemma_unshadowed_bindings_extend(bindings, scope, more);
            let inner = scope + bound_names(bindings);
            lemma_unshadowed_extend(*body, inner, more);
            lemma_unshadowed_fewer(*body, inner + more, (scope + more) + bound_names(bindings));
        },
        Term::Primitive { args, .. } => lemma_unshadowed_all_extend(args, scope, more),
        Term::Call { callee, args } => lemma_unshadowed_all_extend(args, scope, more),
        Term::If { condition, then_branch, else_branch } => {
            lemma_unshadowed_extend(*condition, scope, more);
            lemma_unshadowed_extend(*then_branch, scope, more);
            lemma_unshadowed_extend(*else_branch, scope, more);
        },
        Term::Cons(h, tl) => {
            lemma_unshadowed_extend(*h, scope, more);
            lemma_unshadowed_extend(*tl, scope, more);
        },
        Term::Car(v) => lemma_unshadowed_extend(*v, scope, more),
        Term::Cdr(v) => lemma_unshadowed_extend(*v, scope, more),
        Term::Null(v) => lemma_unshadowed_extend(*v, scope, more),
        _ => {},
    }
}

proof fn lemma_unshadowed_all_extend(s: Seq<Term>, scope: Seq<Seq<char>>, more: Seq<Seq<char>>)
    requires
        unshadowed_all(s, scope),
        forall|n: Seq<char>| #[trigger] more.contains(n) ==> !names_in_all(s).contains(n),
    ensures
        unshadowed_all(s, scope + more),
    decreases s,
{
    broadcast use vstd::seq_lib::lemma_seq_concat_contains_all_elements;

    if s.len() > 0 {
        lemma_unshadowed_all_extend(s.drop_last(), scope, more);
        lemma_unshadowed_extend(s.last(), scope, more);
    }
}

proof fn lemma_unshadowed_bindings_extend(s: Seq<(Seq<char>, Term)>, scope: Seq<Seq<char>>, more: Seq<Seq<char>>)
    requires
        unshadowed_bindings(s, scope),
        forall|n: Seq<char>| #[trigger] more.contains(n) ==> !names_in_bindings(s).contains(n),
    ensures
        unshadowed_bindings(s, scope + more),
    decreases s,
{
    broadcast use vstd::seq_lib::lemma_seq_concat_contains_all_elements;

    if s.len() > 0 {
        lemma_unshadowed_bindings_extend(s.drop_last(), scope, more);
        let before = scope + bound_names(s.drop_last());
        lemma_unshadowed_extend(s.last().1, before, more);
        lemma_unshadowed_fewer(s.last().1, before + more, (scope + more) + bound_names(s.drop_last()));
        assert(seq![s.last().0][0] == s.last().0);
        assert(!more.contains(s.last().0));
    }
}

/// Renaming keeps every literal.
proof fn lemma_renamed_fits(t: Term, ren: Renaming, st: FreshState)
    requires
        literals_fit(t),
    ensures
        literals_fit(renamed(t, ren, st).0),
    decreases t, 1nat,
{
    match t {
        Term::Primitive { args, .. } => lemma_renamed_all_fits(args, ren, st),
        Term::Call { args, .. } => lemma_renamed_all_fits(args, ren, st),
        Term::If { condition, then_branch, else_branch } => {
            let (c, s1) = renamed(*condition, ren, st);
            let (a, s2) = renamed(*then_branch, ren, s1);
            lemma_renamed_fits(*condition, ren, st);
            lemma_renamed_fits(*then_branch, ren, s1);
            lemma_renamed_fits(*else_branch, ren, s2);
        },
        Term::Let { .. } => lemma_renamed_let_fits(t, ren, st),
        Term::Cons(h, tl) => {
            let (x, s1) = renamed(*h, ren, st);
            lemma_renamed_fits(*h, ren, st);
            lemma_renamed_fits(*tl, ren, s1);
        },
        Term::Car(v) => lemma_renamed_fits(*v, ren, st),
        Term::Cdr(v) => lemma_renamed_fits(*v, ren, st),
        Term::Null(v) => lemma_renamed_fits(*v, ren, st),
        _ => {},
    }
}

proof fn lemma_renamed_all_fits(s: Seq<Term>, ren: Renaming, st: FreshState)
    requires
        literals_fit_all(s),
    ensures
        literals_fit_all(renamed_all(s, ren, st).0),
    decreases s, 1nat,
{
    if s.len() > 0 {
        let (front, s1) = renamed_all(s.drop_last(), ren, st);
        lemma_renamed_all_fits(s.drop_last(), ren, st);
        lemma_renamed_fits(s.last(), ren, s1);
        let (r, _) = renamed_all(s, ren, st);
        assert(r.drop_last() =~= front);
    }
}

proof fn lemma_renamed_values_fit(s: Seq<(Seq<char>, Term)>, ren: Renaming, st: FreshState)
    requires
        literals_fit_bindings(s),
    ensures
        forall|i: int|
            0 <= i < renamed_values(s, ren, st).0.len() ==> literals_fit(#[trigger] renamed_values(s, ren, st).0[i].1),
    decreases s, 1nat,
{
    if s.len() > 0 {
        let (front, s1) = renamed_values(s.drop_last(), ren, st);
        lemma_renamed_values_fit(s.drop_last(), ren, st);
        lemma_renamed_fits(s.last().1, ren, s1);
        let (vals, _) = renamed_values(s, ren, st);
        assert forall|i: int| 0 <= i < vals.len() implies literals_fit(#[trigger] vals[i].1) by {
            if i < vals.len() - 1 {
                assert(vals[i] == front[i]);
            }
        }
    }
}

proof fn lemma_fits_bindings_from(s: Seq<(Seq<char>, Term)>)
    requires
        forall|i: int| 0 <= i < s.len() ==> literals_fit(#[trigger] s[i].1),
    ensures
        literals_fit_bindings(s),
    decreases s.len(),
{
    if s.len() > 0 {
        assert forall|i: int| 0 <= i < s.drop_last().len() implies literals_fit(#[trigger] s.drop_last()[i].1) by {
            assert(s.drop_last()[i] == s[i]);
        }
        lemma_fits_bindings_from(s.drop_last());
        assert(s[s.len() - 1] == s.last());
    }
}

proof fn lemma_renamed_let_fits(t: Term, ren: Renaming, st: FreshState)
    requires
        t is Let,
        literals_fit(t),
    ensures
        literals_fit(renamed(t, ren, st).0),
    decreases t, 0nat,
{
    let bindings = t->Let_bindings;
    let body = *t->Let_body;
    let (values, s1) = renamed_values(bindings, ren, st);
    lemma_renamed_values_fit(bindings, ren, st);
    let (bs, ren2, s2) = freshen(values, ren, s1);
    lemma_freshen_shape(values, ren, s1);
    assert forall|i: int| 0 <= i < bs.len() implies literals_fit(#[trigger] bs[i].1) by {
        assert(bs[i].1 == values[i].1);
    }
    lemma_fits_bindings_from(bs);
    lemma_renamed_fits(body, ren2, s2);
}

/// The shape of `freshen`'s result, whatever the supply holds.
proof fn lemma_freshen_shape(values: Seq<(Seq<char>, Term)>, ren: Renaming, st: FreshState)
    ensures
        freshen(values, ren, st).0.len() == values.len(),
        forall|i: int| 0 <= i < values.len() ==> (#[trigger] freshen(values, ren, st).0[i]).1 == values[i].1,
    decreases values.len(),
{
    if values.len() > 0 {
        lemma_freshen_shape(values.drop_last(), ren, st);
        let (front, e1, s1) = freshen(values.drop_last(), ren, st);
        let (bs, _, _) = freshen(values, ren, st);
        assert forall|i: int| 0 <= i < values.len() implies (#[trigger] bs[i]).1 == values[i].1 by {
            if i < values.len() - 1 {
                assert(bs[i] == front[i]);
                assert(values.drop_last()[i] == values[i]);
            }
        }
    }
}

/// Every helper body keeps its literals in range.
pub open spec fn helpers_fit(helpers: Seq<DefTerm>) -> bool {
    forall|i: int| 0 <= i < helpers.len() ==> literals_fit(#[trigger] helpers[i].body)
}

proof fn lemma_instantiated_fits(h: DefTerm, args: Seq<Term>, st: FreshState)
    requires
        literals_fit(h.body),
        literals_fit_all(args),
        h.params.len() == args.len(),
    ensures
        literals_fit(instantiated(h, args, st).0),
{
    if all_vars(args) {
        lemma_renamed_fits(h.body, var_renaming(h.params, args), st);
    } else {
        let (env, bs, s1) = bind_fresh(h.params, args, h.params.len(), st);
        lemma_bind_fresh_shape(h.params, args, h.params.len(), st);
        lemma_renamed_fits(h.body, env, s1);
        lemma_literals_fit_each(args);
        assert forall|i: int| 0 <= i < bs.len() implies literals_fit(#[trigger] bs[i].1) by {
            assert(bs[i].1 == args[i]);
        }
        lemma_fits_bindings_from(bs);
    }
}

/// The shape of `bind_fresh`'s result, whatever the supply holds.
proof fn lemma_bind_fresh_shape(params: Seq<Seq<char>>, args: Seq<Term>, k: nat, st: FreshState)
    requires
        k <= params.len(),
        k <= args.len(),
    ensures
        bind_fresh(params, args, k, st).1.len() == k,
        forall|i: int| 0 <= i < k ==> (#[trigger] bind_fresh(params, args, k, st).1[i]).1 == args[i],
    decreases k,
{
    if k > 0 {
        lemma_bind_fresh_shape(params, args, (k - 1) as nat, st);
        let (_, bs0, _) = bind_fresh(params, args, (k - 1) as nat, st);
        let (_, bs, _) = bind_fresh(params, args, k, st);
        assert forall|i: int| 0 <= i < k implies (#[trigger] bs[i]).1 == args[i] by {
            if i < k - 1 {
                assert(bs[i] == bs0[i]);
            }
        }
    }
}

/// Inlining keeps every literal in range.
proof fn lemma_inlined_fits(helpers: Seq<DefTerm>, t: Term, st: FreshState)
    requires
        literals_fit(t),
        helpers_fit(helpers),
    ensures
        literals_fit(inlined(t, helpers, st).0),
    decreases t,
{
    match t {
        Term::Call { callee, args } => {
            let (a, s1) = inlined_all(args, helpers, st);
            lemma_inlined_all_fits(helpers, args, st);
            if let Some(h) = find_def(helpers, callee) {
                if h.params.len() == a.len() {
                    lemma_find_def_member(helpers, callee);
                    let i = choose|i: int| 0 <= i < helpers.len() && helpers[i] == h;
                    assert(literals_fit(helpers[i].body));
                    lemma_instantiated_fits(h, a, s1);
                }
            }
        },
        Term::Primitive { args, .. } => lemma_inlined_all_fits(helpers, args, st),
        Term::If { condition, then_branch, else_branch } => {
            let (c, s1) = inlined(*condition, helpers, st);
            let (a, s2) = inlined(*then_branch, helpers, s1);
            lemma_inlined_fits(helpers, *condition, st);
            lemma_inlined_fits(helpers, *then_branch, s1);
            lemma_inlined_fits(helpers, *else_branch, s2);
        },
        Term::Let { bindings, body } => {
            let (bs, s1) = inlined_bindings(bindings, helpers, st);
            lemma_inlined_bindings_fit(helpers, bindings, st);
            lemma_inlined_fits(helpers, *body, s1);
        },
        Term::Cons(h, tl) => {
            let (x, s1) = inlined(*h, helpers, st);
            lemma_inlined_fits(helpers, *h, st);
            lemma_inlined_fits(helpers, *tl, s1);
        },
        Term::Car(v) => lemma_inlined_fits(helpers, *v, st),
        Term::Cdr(v) => lemma_inlined_fits(helpers, *v, st),
        Term::Null(v) => lemma_inlined_fits(helpers, *v, st),
        _ => {},
    }
}

proof fn lemma_inlined_all_fits(helpers: Seq<DefTerm>, s: Seq<Term>, st: FreshState)
    requires
        literals_fit_all(s),
        helpers_fit(helpers),
    ensures
        literals_fit_all(inlined_all(s, helpers, st).0),
        inlined_all(s, helpers, st).0.len() == s.len(),
    decreases s,
{
    if s.len() > 0 {
        let (front, s1) = inlined_all(s.drop_last(), helpers, st);
        lemma_inlined_all_fits(helpers, s.drop_last(), st);
        lemma_inlined_fits(helpers, s.last(), s1);
        let (r, _) = inlined_all(s, helpers, st);
        assert(r.drop_last() =~= front);
    }
}

proof fn lemma_inlined_bindings_fit(helpers: Seq<DefTerm>, s: Seq<(Seq<char>, Term)>, st: FreshState)
    requires
        literals_fit_bindings(s),
        helpers_fit(helpers),
    ensures
        literals_fit_bindings(inlined_bindings(s, helpers, st).0),
    decreases s,
{
    if s.len() > 0 {
        let (front, s1) = inlined_bindings(s.drop_last(), helpers, st);
        lemma_inlined_bindings_fit(helpers, s.drop_last(), st);
        lemma_inlined_fits(helpers, s.last().1, s1);
        let (r, _) = inlined_bindings(s, helpers, st);
        assert(r.drop_last() =~= front);
    }
}

/// A `let` whose names are fresh, distinct and outside the scope, and whose
/// values shadow nothing, shadows nothing.
proof fn lemma_fresh_names_unshadowed(bs: Seq<(Seq<char>, Term)>, scope: Seq<Seq<char>>, k: int)
    requires
        0 <= k <= bs.len(),
        forall|i: int| 0 <= i < bs.len() ==> !scope.contains(#[trigger] bs[i].0),
        forall|i: int, j: int| 0 <= i < j < bs.len() ==> bs[i].0 != bs[j].0,
        forall|i: int| 0 <= i < bs.len() ==> unshadowed(#[trigger] bs[i].1, scope + bound_names(bs.take(i))),
    ensures
        unshadowed_bindings(bs.take(k), scope),
    decreases k,
{
    broadcast use vstd::seq_lib::lemma_seq_concat_contains_all_elements;

    if k > 0 {
        lemma_fresh_names_unshadowed(bs, scope, k - 1);
        let pre = bs.take(k);
        let pre1 = bs.take(k - 1);
        assert(pre.drop_last() =~= pre1);
        assert(pre.last() == bs[k - 1]);
        let names1 = bound_names(pre1);
        lemma_bound_names_index(pre1);
        let x = bs[k - 1].0;
        assert(!(scope + names1).contains(x)) by {
            if names1.contains(x) {
                let j = choose|j: int| 0 <= j < names1.len() && names1[j] == x;
                assert(names1[j] == pre1[j].0);
                assert(pre1[j] == bs[j]);
            }
        }
    }
}

proof fn lemma_inlined_bindings_names_kept(helpers: Seq<DefTerm>, s: Seq<(Seq<char>, Term)>, st: FreshState)
    ensures
        bound_names(inlined_bindings(s, helpers, st).0) == bound_names(s),
    decreases s.len(),
{
    if s.len() > 0 {
        lemma_inlined_bindings_names_kept(helpers, s.drop_last(), st);
        let (front, s1) = inlined_bindings(s.drop_last(), helpers, st);
        let (r, _) = inlined_bindings(s, helpers, st);
        assert(r.drop_last() =~= front);
    }
}

/// Inlining shadows nothing: the names it introduces are fresh.
proof fn lemma_inlined_unshadowed(
    helpers: Seq<DefTerm>,
    defs: Seq<DefTerm>,
    t: Term,
    st: FreshState,
    scope: Seq<Seq<char>>,
)
    requires
        st.used.finite(),
        all_used(names_in(t), st.used),
        inlinable(helpers, defs, st.used),
        unshadowed(t, scope),
        avoids_window(scope, st.used, inlined(t, helpers, st).1.used),
    ensures
        unshadowed(inlined(t, helpers, st).0, scope),
    decreases t,
{
    broadcast use vstd::seq_lib::lemma_seq_concat_contains_all_elements;

    let u = names_in(t);
    lemma_inlined_names(helpers, defs, t, st);
    let st_end = inlined(t, helpers, st).1;
    match t {
        Term::Call { callee, args } => {
            lemma_within_concat(seq![callee], names_in_all(args), u);
            lemma_all_used_fewer(u, names_in_all(args), st.used);
            let (a, s1) = inlined_all(args, helpers, st);
            lemma_inlined_all_names(helpers, defs, args, st);
            lemma_all_used_each(a, s1.used);
            let mut instantiating = false;
            if let Some(h) = find_def(helpers, callee) {
                if h.params.len() == a.len() {
                    instantiating = true;
                }
            }
            if instantiating {
                let h = find_def(helpers, callee).unwrap();
                lemma_find_def_member(helpers, callee);
                lemma_inlinable_more_used(helpers, defs, st.used, s1.used);
                let i = choose|i: int| 0 <= i < helpers.len() && helpers[i] == h;
                assert(all_used(names_in(helpers[i].body), s1.used));
                lemma_instantiated_names(h, a, s1);
                lemma_avoids_narrower(scope, st.used, st_end.used, s1.used, st_end.used);
                if all_vars(a) {
                    lemma_renamed_unshadowed(h.body, var_renaming(h.params, a), s1, scope);
                } else {
                    let (env, bs, s1b) = bind_fresh(h.params, a, h.params.len(), s1);
                    lemma_bind_fresh(h.params, a, h.params.len(), s1);
                    let (b, s2) = renamed(h.body, env, s1b);
                    lemma_renamed_grows(h.body, env, s1b);
                    if bs.len() == 0 {
                        lemma_avoids_narrower(scope, s1.used, st_end.used, s1b.used, s2.used);
                        lemma_renamed_unshadowed(h.body, env, s1b, scope);
                    } else {
                        assert forall|k: int| 0 <= k < bs.len() implies unshadowed(
                            #[trigger] bs[k].1,
                            scope + bound_names(bs.take(k)),
                        ) by {
                            let more = bound_names(bs.take(k));
                            lemma_bound_names_index(bs.take(k));
                            assert forall|n: Seq<char>| #[trigger] more.contains(n) implies !names_in_all(args).contains(n)
                                && !s1.used.contains(n) by {
                                let j = choose|j: int| 0 <= j < more.len() && more[j] == n;
                                assert(more[j] == bs.take(k)[j].0);
                                assert(bs.take(k)[j] == bs[j]);
                            }
                            lemma_unshadowed_all_extend(args, scope, more);
                            assert(avoids_window(scope + more, st.used, s1.used)) by {
                                assert forall|n: Seq<char>| #[trigger] (scope + more).contains(n) implies st.used.contains(n)
                                    || !s1.used.contains(n) by {
                                    if !more.contains(n) {
                                        assert(scope.contains(n));
                                    }
                                }
                            }
                            lemma_inlined_all_unshadowed(helpers, defs, args, st, scope + more);
                            lemma_unshadowed_each(a, scope + more);
                            assert(bs[k].1 == a[k]);
                        }
                        assert forall|k: int| 0 <= k < bs.len() implies !scope.contains(#[trigger] bs[k].0) by {
                            assert(!s1.used.contains(bs[k].0));
                            assert(st.used.subset_of(s1.used));
                        }
                        lemma_fresh_names_unshadowed(bs, scope, bs.len() as int);
                        assert(bs.take(bs.len() as int) =~= bs);
                        let inner = scope + bound_names(bs);
                        lemma_bound_names_index(bs);
                        assert(avoids_window(inner, s1b.used, s2.used)) by {
                            assert forall|n: Seq<char>| #[trigger] inner.contains(n) implies s1b.used.contains(n)
                                || !s2.used.contains(n) by {
                                if bound_names(bs).contains(n) {
                                    let j = choose|j: int| 0 <= j < bound_names(bs).len() && bound_names(bs)[j] == n;
                                    assert(bound_names(bs)[j] == bs[j].0);
                                } else {
                                    assert(scope.contains(n));
                                }
                            }
                        }
                        lemma_renamed_unshadowed(h.body, env, s1b, inner);
                    }
                }
            } else {
                lemma_inlined_all_unshadowed(helpers, defs, args, st, scope);
            }
        },
        Term::Primitive { args, .. } => {
            lemma_inlined_all_names(helpers, defs, args, st);
            lemma_inlined_all_unshadowed(helpers, defs, args, st, scope);
        },
        Term::If { condition, then_branch, else_branch } => {
            let c0 = names_in(*condition);
            let a0 = names_in(*then_branch);
            let b0 = names_in(*else_branch);
            lemma_within_concat(c0 + a0, b0, u);
            lemma_within_concat(c0, a0, u);
            lemma_all_used_fewer(u, c0, st.used);
            lemma_all_used_fewer(u, a0, st.used);
            lemma_all_used_fewer(u, b0, st.used);
            let (c, s1) = inlined(*condition, helpers, st);
            lemma_inlined_names(helpers, defs, *condition, st);
            lemma_all_used_more(a0, st.used, s1.used);
            lemma_inlinable_more_used(helpers, defs, st.used, s1.used);
            let (a, s2) = inlined(*then_branch, helpers, s1);
            lemma_inlined_names(helpers, defs, *then_branch, s1);
            lemma_all_used_more(b0, st.used, s2.used);
            lemma_inlinable_more_used(helpers, defs, st.used, s2.used);
            lemma_inlined_names(helpers, defs, *else_branch, s2);
            lemma_avoids_narrower(scope, st.used, st_end.used, st.used, s1.used);
            lemma_avoids_narrower(scope, st.used, st_end.used, s1.used, s2.used);
            lemma_avoids_narrower(scope, st.used, st_end.used, s2.used, st_end.used);
            lemma_inlined_unshadowed(helpers, defs, *condition, st, scope);
            lemma_inlined_unshadowed(helpers, defs, *then_branch, s1, scope);
            lemma_inlined_unshadowed(helpers, defs, *else_branch, s2, scope);
        },
        Term::Let { bindings, body } => {
            lemma_within_concat(names_in_bindings(bindings), names_in(*body), u);
            lemma_all_used_fewer(u, names_in_bindings(bindings), st.used);
            lemma_all_used_fewer(u, names_in(*body), st.used);
            let (bs, s1) = inlined_bindings(bindings, helpers, st);
            lemma_inlined_bindings_names(helpers, defs, bindings, st);
            lemma_inlined_bindings_names_kept(helpers, bindings, st);
            lemma_all_used_more(names_in(*body), st.used, s1.used);
            lemma_inlinable_more_used(helpers, defs, st.used, s1.used);
            lemma_inlined_names(helpers, defs, *body, s1);
            lemma_avoids_narrower(scope, st.used, st_end.used, st.used, s1.used);
            lemma_avoids_narrower(scope, st.used, st_end.used, s1.used, st_end.used);
            lemma_inlined_bindings_unshadowed(helpers, defs, bindings, st, scope);
            let inner = scope + bound_names(bindings);
            lemma_binders_cover_names(bindings);
            assert(avoids_window(inner, s1.used, st_end.used)) by {
                assert forall|n: Seq<char>| #[trigger] inner.contains(n) implies s1.used.contains(n)
                    || !st_end.used.contains(n) by {
                    if bound_names(bindings).contains(n) {
                        lemma_names_in_bindings_parts(bindings, n);
                        lemma_bound_names_index(bindings);
                        let j = choose|j: int| 0 <= j < bound_names(bindings).len() && bound_names(bindings)[j] == n;
                        assert(bound_names(bindings)[j] == bindings[j].0);
                        assert(names_in_bindings(bindings).contains(n));
                    } else {
                        assert(scope.contains(n));
                    }
                }
            }
            lemma_inlined_unshadowed(helpers, defs, *body, s1, inner);
        },
        Term::Cons(h, tl) => {
            lemma_within_concat(names_in(*h), names_in(*tl), u);
            lemma_all_used_fewer(u, names_in(*h), st.used);
            lemma_all_used_fewer(u, names_in(*tl), st.used);
            let (x, s1) = inlined(*h, helpers, st);
            lemma_inlined_names(helpers, defs, *h, st);
            lemma_all_used_more(names_in(*tl), st.used, s1.used);
            lemma_inlinable_more_used(helpers, defs, st.used, s1.used);
            lemma_inlined_names(helpers, defs, *tl, s1);
            lemma_avoids_narrower(scope, st.used, st_end.used, st.used, s1.used);
            lemma_avoids_narrower(scope, st.used, st_end.used, s1.used, st_end.used);
            lemma_inlined_unshadowed(helpers, defs, *h, st, scope);
            lemma_inlined_unshadowed(helpers, defs, *tl, s1, scope);
        },
        Term::Car(v) => lemma_inlined_unshadowed(helpers, defs, *v, st, scope),
        Term::Cdr(v) => lemma_inlined_unshadowed(helpers, defs, *v, st, scope),
        Term::Null(v) => lemma_inlined_unshadowed(helpers, defs, *v, st, scope),
        _ => {},
    }
}

proof fn lemma_inlined_all_unshadowed(
    helpers: Seq<DefTerm>,
    defs: Seq<DefTerm>,
    s: Seq<Term>,
    st: FreshState,
    scope: Seq<Seq<char>>,
)
    requires
        st.used.finite(),
        all_used(names_in_all(s), st.used),
        inlinable(helpers, defs, st.used),
        unshadowed_all(s, scope),
        avoids_window(scope, st.used, inlined_all(s, helpers, st).1.used),
    ensures
        unshadowed_all(inlined_all(s, helpers, st).0, scope),
    decreases s,
{
    if s.len() > 0 {
        lemma_names_in_all_within(s);
        lemma_all_used_fewer(names_in_all(s), names_in_all(s.drop_last()), st.used);
        lemma_all_used_fewer(names_in_all(s), names_in(s.last()), st.used);
        let (front, s1) = inlined_all(s.drop_last(), helpers, st);
        lemma_inlined_all_names(helpers, defs, s.drop_last(), st);
        lemma_all_used_more(names_in(s.last()), st.used, s1.used);
        lemma_inlinable_more_used(helpers, defs, st.used, s1.used);
        lemma_inlined_names(helpers, defs, s.last(), s1);
        let (r, s2) = inlined_all(s, helpers, st);
        lemma_avoids_narrower(scope, st.used, s2.used, st.used, s1.used);
        lemma_avoids_narrower(scope, st.used, s2.used, s1.used, s2.used);
        lemma_inlined_all_unshadowed(helpers, defs, s.drop_last(), st, scope);
        lemma_inlined_unshadowed(helpers, defs, s.last(), s1, scope);
        assert(r.drop_last() =~= front);
    }
}

proof fn lemma_inlined_bindings_unshadowed(
    helpers: Seq<DefTerm>,
    defs: Seq<DefTerm>,
    s: Seq<(Seq<char>, Term)>,
    st: FreshState,
    scope: Seq<Seq<char>>,
)
    requires
        st.used.finite(),
        all_used(names_in_bindings(s), st.used),
        inlinable(helpers, defs, st.used),
        unshadowed_bindings(s, scope),
        avoids_window(scope, st.used, inlined_bindings(s, helpers, st).1.used),
    ensures
        unshadowed_bindings(inlined_bindings(s, helpers, st).0, scope),
    decreases s,
{
    broadcast use vstd::seq_lib::lemma_seq_concat_contains_all_elements;

    if s.len() > 0 {
        lemma_names_in_bindings_within(s);
        lemma_all_used_fewer(names_in_bindings(s), names_in_bindings(s.drop_last()), st.used);
        lemma_all_used_fewer(names_in_bindings(s), names_in(s.last().1), st.used);
        let (front, s1) = inlined_bindings(s.drop_last(), helpers, st);
        lemma_inlined_bindings_names(helpers, defs, s.drop_last(), st);
        lemma_inlined_bindings_names_kept(helpers, s.drop_last(), st);
        lemma_all_used_more(names_in(s.last().1), st.used, s1.used);
        lemma_inlinable_more_used(helpers, defs, st.used, s1.used);
        lemma_inlined_names(helpers, defs, s.last().1, s1);
        let (r, s2) = inlined_bindings(s, helpers, st);
        lemma_avoids_narrower(scope, st.used, s2.used, st.used, s1.used);
        lemma_avoids_narrower(scope, st.used, s2.used, s1.used, s2.used);
        lemma_inlined_bindings_unshadowed(helpers, defs, s.drop_last(), st, scope);
        let before = scope + bound_names(s.drop_last());
        lemma_bound_names_index(s.drop_last());
        assert(avoids_window(before, s1.used, s2.used)) by {
            assert forall|n: Seq<char>| #[trigger] before.contains(n) implies s1.used.contains(n) || !s2.used.contains(n) by {
                if bound_names(s.drop_last()).contains(n) {
                    let j = choose|j: int| 0 <= j < bound_names(s.drop_last()).len() && bound_names(s.drop_last())[j] == n;
                    assert(bound_names(s.drop_last())[j] == s.drop_last()[j].0);
                    lemma_names_in_bindings_parts(s.drop_last(), n);
                    assert(names_in_bindings(s.drop_last()).contains(n));
                } else {
                    assert(scope.contains(n));
                }
            }
        }
        lemma_inlined_unshadowed(helpers, defs, s.last().1, s1, before);
        assert(r.drop_last() =~= front);
    }
}

// ---------------------------------------------------------------------------
// Whole programs
// ---------------------------------------------------------------------------

/// `q` has the definitions of `p` in order, each body giving, with `p`'s
/// definitions, every value that `p`'s body gives.
pub open spec fn refines_bodies(p: Seq<DefTerm>, q: Seq<DefTerm>) -> bool {
    &&& q.len() == p.len()
    &&& forall|i: int| 0 <= i < p.len() ==> (#[trigger] q[i]).name == p[i].name && q[i].params == p[i].params
    &&& forall|i: int, env: Map<Seq<char>, Value>, fuel: nat|
        0 <= i < p.len() && evaluated(p, p[i].body, env, fuel) is Some ==> #[trigger] evaluated(p, q[i].body, env, fuel)
            == evaluated(p, p[i].body, env, fuel)
}

/// The definition a name finds is the last one with that name.
pub(crate) proof fn lemma_find_def_index(defs: Seq<DefTerm>, name: Seq<char>)
    ensures
        find_def(defs, name) is None <==> forall|k: int| 0 <= k < defs.len() ==> defs[k].name != name,
        find_def(defs, name) is Some ==> exists|k: int|
            0 <= k < defs.len() && defs[k].name == name && (forall|j: int| k < j < defs.len() ==> defs[j].name != name)
                && find_def(defs, name) == Some(defs[k]),
    decreases defs.len(),
{
    if defs.len() > 0 {
        lemma_find_def_index(defs.drop_last(), name);
        let last = defs.len() - 1;
        assert(defs[last] == defs.last());
        if defs.last().name != name {
            if find_def(defs, name) is Some {
                let k = choose|k: int|
                    0 <= k < defs.drop_last().len() && defs.drop_last()[k].name == name && (forall|j: int|
                        k < j < defs.drop_last().len() ==> defs.drop_last()[j].name != name) && find_def(
                        defs.drop_last(),
                        name,
                    ) == Some(defs.drop_last()[k]);
                assert(defs[k] == defs.drop_last()[k]);
                assert forall|j: int| k < j < defs.len() implies defs[j].name != name by {
                    if j < last {
                        assert(defs[j] == defs.drop_last()[j]);
                    }
                }
            } else {
                assert forall|k: int| 0 <= k < defs.len() implies defs[k].name != name by {
                    if k < last {
                        assert(defs[k] == defs.drop_last()[k]);
                    }
                }
            }
        }
    }
}

/// Definitions whose names match pointwise find the same position.
proof fn lemma_find_def_matching(p: Seq<DefTerm>, q: Seq<DefTerm>, name: Seq<char>)
    requires
        q.len() == p.len(),
        forall|i: int| 0 <= i < p.len() ==> (#[trigger] q[i]).name == p[i].name,
    ensures
        find_def(q, name) is Some <==> find_def(p, name) is Some,
        find_def(p, name) is Some ==> exists|k: int|
            0 <= k < p.len() && find_def(p, name) == Some(p[k]) && find_def(q, name) == Some(q[k]),
{
    lemma_find_def_index(p, name);
    lemma_find_def_index(q, name);
    if find_def(p, name) is Some {
        let k = choose|k: int|
            0 <= k < p.len() && p[k].name == name && (forall|j: int| k < j < p.len() ==> p[j].name != name)
                && find_def(p, name) == Some(p[k]);
        assert(q[k].name == name);
        let k2 = choose|k: int|
            0 <= k < q.len() && q[k].name == name && (forall|j: int| k < j < q.len() ==> q[j].name != name)
                && find_def(q, name) == Some(q[k]);
        if k < k2 {
            assert(p[k2].name == q[k2].name);
        }
        if k2 < k {
            assert(q[k].name == p[k].name);
        }
    } else {
        assert forall|k: int| 0 <= k < q.len() implies q[k].name != name by {
            assert(q[k].name == p[k].name);
        }
    }
}

/// Calling definitions whose bodies refine those of `p` never changes a
/// result that calling `p` computed.
pub proof fn lemma_refined_defs_keep_value(
    p: Seq<DefTerm>,
    q: Seq<DefTerm>,
    t: Term,
    env: Map<Seq<char>, Value>,
    fuel: nat,
)
    requires
        refines_bodies(p, q),
        evaluated(p, t, env, fuel) is Some,
    ensures
        evaluated(q, t, env, fuel) == evaluated(p, t, env, fuel),
    decreases fuel, t,
{
    match t {
        Term::Primitive { op, args } => {
            if args.len() == 2 {
                lemma_refined_defs_keep_value(p, q, args[0], env, fuel);
                lemma_refined_defs_keep_value(p, q, args[1], env, fuel);
            }
        },
        Term::Call { callee, args } => {
            lemma_refined_defs_keep_values(p, q, args, env, fuel);
            lemma_find_def_matching(p, q, callee);
            let values = evaluated_all(p, args, env, fuel).unwrap();
            let k = choose|k: int| 0 <= k < p.len() && find_def(p, callee) == Some(p[k]) && find_def(q, callee) == Some(q[k]);
            let inner = bound_params(p[k].params, values);
            let f = (fuel - 1) as nat;
            assert(evaluated(p, q[k].body, inner, f) == evaluated(p, p[k].body, inner, f));
            lemma_refined_defs_keep_value(p, q, q[k].body, inner, f);
        },
        Term::If { condition, then_branch, else_branch } => {
            lemma_refined_defs_keep_value(p, q, *condition, env, fuel);
            if let Some(Value::Num(c)) = evaluated(p, *condition, env, fuel) {
                if c == 0 {
                    lemma_refined_defs_keep_value(p, q, *else_branch, env, fuel);
                } else {
                    lemma_refined_defs_keep_value(p, q, *then_branch, env, fuel);
                }
            }
        },
        Term::Let { bindings, body } => {
            lemma_refined_defs_keep_bindings(p, q, bindings, env, fuel);
            let inner = bound_in(p, bindings, env, fuel).unwrap();
            lemma_refined_defs_keep_value(p, q, *body, inner, fuel);
        },
        Term::Cons(h, tl) => {
            lemma_refined_defs_keep_value(p, q, *h, env, fuel);
            lemma_refined_defs_keep_value(p, q, *tl, env, fuel);
        },
        Term::Car(v) => lemma_refined_defs_keep_value(p, q, *v, env, fuel),
        Term::Cdr(v) => lemma_refined_defs_keep_value(p, q, *v, env, fuel),
        Term::Null(v) => lemma_refined_defs_keep_value(p, q, *v, env, fuel),
        _ => {},
    }
}

proof fn lemma_refined_defs_keep_values(
    p: Seq<DefTerm>,
    q: Seq<DefTerm>,
    s: Seq<Term>,
    env: Map<Seq<char>, Value>,
    fuel: nat,
)
    requires
        refines_bodies(p, q),
        evaluated_all(p, s, env, fuel) is Some,
    ensures
        evaluated_all(q, s, env, fuel) == evaluated_all(p, s, env, fuel),
    decreases fuel, s,
{
    if s.len() > 0 {
        lemma_refined_defs_keep_values(p, q, s.drop_last(), env, fuel);
        lemma_refined_defs_keep_value(p, q, s.last(), env, fuel);
    }
}

proof fn lemma_refined_defs_keep_bindings(
    p: Seq<DefTerm>,
    q: Seq<DefTerm>,
    s: Seq<(Seq<char>, Term)>,
    env: Map<Seq<char>, Value>,
    fuel: nat,
)
    requires
        refines_bodies(p, q),
        bound_in(p, s, env, fuel) is Some,
    ensures
        bound_in(q, s, env, fuel) == bound_in(p, s, env, fuel),
    decreases fuel, s,
{
    if s.len() > 0 {
        lemma_refined_defs_keep_bindings(p, q, s.drop_last(), env, fuel);
        let inner = bound_in(p, s.drop_last(), env, fuel).unwrap();
        lemma_refined_defs_keep_value(p, q, s.last().1, inner, fuel);
    }
}


/// Each body of `q`, in an environment that binds every parameter of its
/// definition, computes with `p`'s definitions every value the same body of
/// `p` computes there.
pub open spec fn refines_calls(p: Seq<DefTerm>, q: Seq<DefTerm>) -> bool {
    &&& q.len() == p.len()
    &&& forall|i: int| 0 <= i < p.len() ==> (#[trigger] q[i]).name == p[i].name && q[i].params == p[i].params
    &&& forall|i: int, env: Map<Seq<char>, Value>, fuel: nat|
        0 <= i < p.len() && binds_all(env, p[i].params) && evaluated(p, p[i].body, env, fuel) is Some
            ==> #[trigger] evaluated(p, q[i].body, env, fuel) == evaluated(p, p[i].body, env, fuel)
}

/// `env` binds every name of `names`.
pub open spec fn binds_all(env: Map<Seq<char>, Value>, names: Seq<Seq<char>>) -> bool {
    forall|n: Seq<char>| #[trigger] names.contains(n) ==> env.contains_key(n)
}

/// Definitions that refine each other on the calls that can happen keep every
/// value a term computed.
pub proof fn lemma_called_defs_keep_value(
    p: Seq<DefTerm>,
    q: Seq<DefTerm>,
    t: Term,
    env: Map<Seq<char>, Value>,
    fuel: nat,
)
    requires
        refines_calls(p, q),
        evaluated(p, t, env, fuel) is Some,
    ensures
        evaluated(q, t, env, fuel) == evaluated(p, t, env, fuel),
    decreases fuel, t,
{
    match t {
        Term::Primitive { op, args } => {
            if args.len() == 2 {
                lemma_called_defs_keep_value(p, q, args[0], env, fuel);
                lemma_called_defs_keep_value(p, q, args[1], env, fuel);
            }
        },
        Term::Call { callee, args } => {
            lemma_called_defs_keep_values(p, q, args, env, fuel);
            lemma_find_def_matching(p, q, callee);
            let values = evaluated_all(p, args, env, fuel).unwrap();
            let k = choose|k: int| 0 <= k < p.len() && find_def(p, callee) == Some(p[k]) && find_def(q, callee) == Some(q[k]);
            let inner = bound_params(p[k].params, values);
            let f = (fuel - 1) as nat;
            assert(binds_all(inner, p[k].params)) by {
                assert forall|n: Seq<char>| #[trigger] p[k].params.contains(n) implies inner.contains_key(n) by {
                    lemma_bound_params_lookup(p[k].params, values, n);
                    let j = choose|j: int| 0 <= j < p[k].params.len() && p[k].params[j] == n;
                }
            }
            assert(evaluated(p, q[k].body, inner, f) == evaluated(p, p[k].body, inner, f));
            lemma_called_defs_keep_value(p, q, q[k].body, inner, f);
        },
        Term::If { condition, then_branch, else_branch } => {
            lemma_called_defs_keep_value(p, q, *condition, env, fuel);
            if let Some(Value::Num(c)) = evaluated(p, *condition, env, fuel) {
                if c == 0 {
                    lemma_called_defs_keep_value(p, q, *else_branch, env, fuel);
                } else {
                    lemma_called_defs_keep_value(p, q, *then_branch, env, fuel);
                }
            }
        },
        Term::Let { bindings, body } => {
            lemma_called_defs_keep_bindings(p, q, bindings, env, fuel);
            let inner = bound_in(p, bindings, env, fuel).unwrap();
            lemma_called_defs_keep_value(p, q, *body, inner, fuel);
        },
        Term::Cons(h, tl) => {
            lemma_called_defs_keep_value(p, q, *h, env, fuel);
            lemma_called_defs_keep_value(p, q, *tl, env, fuel);
        },
        Term::Car(v) => lemma_called_defs_keep_value(p, q, *v, env, fuel),
        Term::Cdr(v) => lemma_called_defs_keep_value(p, q, *v, env, fuel),
        Term::Null(v) => lemma_called_defs_keep_value(p, q, *v, env, fuel),
        _ => {},
    }
}

proof fn lemma_called_defs_keep_values(
    p: Seq<DefTerm>,
    q: Seq<DefTerm>,
    s: Seq<Term>,
    env: Map<Seq<char>, Value>,
    fuel: nat,
)
    requires
        refines_calls(p, q),
        evaluated_all(p, s, env, fuel) is Some,
    ensures
        evaluated_all(q, s, env, fuel) == evaluated_all(p, s, env, fuel),
    decreases fuel, s,
{
    if s.len() > 0 {
        lemma_called_defs_keep_values(p, q, s.drop_last(), env, fuel);
        lemma_called_defs_keep_value(p, q, s.last(), env, fuel);
    }
}

proof fn lemma_called_defs_keep_bindings(
    p: Seq<DefTerm>,
    q: Seq<DefTerm>,
    s: Seq<(Seq<char>, Term)>,
    env: Map<Seq<char>, Value>,
    fuel: nat,
)
    requires
        refines_calls(p, q),
        bound_in(p, s, env, fuel) is Some,
    ensures
        bound_in(q, s, env, fuel) == bound_in(p, s, env, fuel),
    decreases fuel, s,
{
    if s.len() > 0 {
        lemma_called_defs_keep_bindings(p, q, s.drop_last(), env, fuel);
        let inner = bound_in(p, s.drop_last(), env, fuel).unwrap();
        lemma_called_defs_keep_value(p, q, s.last().1, inner, fuel);
    }
}

// ---------------------------------------------------------------------------
// Inlining a whole program
// ---------------------------------------------------------------------------

/// No two definitions share a name.
pub open spec fn distinct_names(defs: Seq<DefTerm>) -> bool {
    forall|i: int, j: int| #![trigger defs[i], defs[j]] 0 <= i < j < defs.len() ==> defs[i].name != defs[j].name
}

/// The names a definition's body mentions are among those the definitions
/// mention.
proof fn lemma_definitions_names_cover(defs: Seq<DefTerm>, k: int)
    requires
        0 <= k < defs.len(),
    ensures
        within(names_in(defs[k].body), definitions_names(defs)),
    decreases defs.len(),
{
    broadcast use vstd::seq_lib::lemma_seq_concat_contains_all_elements;

    let whole = definitions_names(defs);
    let last = defs.last();
    let front = definitions_names(defs.drop_last());
    assert(whole == front + seq![last.name] + last.params + names_in(last.body));
    if k == defs.len() - 1 {
        assert forall|n: Seq<char>| #[trigger] names_in(defs[k].body).contains(n) implies whole.contains(n) by {
            assert((front + seq![last.name] + last.params + names_in(last.body)).contains(n));
        }
    } else {
        lemma_definitions_names_cover(defs.drop_last(), k);
        assert(defs.drop_last()[k] == defs[k]);
        assert forall|n: Seq<char>| #[trigger] names_in(defs[k].body).contains(n) implies whole.contains(n) by {
            assert(front.contains(n));
            assert((front + seq![last.name]).contains(n));
            assert((front + seq![last.name] + last.params).contains(n));
        }
    }
}

/// Every helper is call-free and small, and is one of the definitions.
pub(crate) proof fn lemma_helpers_members(defs: Seq<DefTerm>)
    ensures
        forall|i: int|
            0 <= i < helpers_of(defs).len() ==> is_inline_candidate(#[trigger] helpers_of(defs)[i]) && exists|k: int|
                0 <= k < defs.len() && defs[k] == helpers_of(defs)[i],
    decreases defs.len(),
{
    if defs.len() > 0 {
        lemma_helpers_members(defs.drop_last());
        let h0 = helpers_of(defs.drop_last());
        let h = helpers_of(defs);
        assert forall|i: int| 0 <= i < h.len() implies is_inline_candidate(#[trigger] h[i]) && exists|k: int|
            0 <= k < defs.len() && defs[k] == h[i] by {
            if i < h0.len() {
                assert(h[i] == h0[i]);
                let k = choose|k: int| 0 <= k < defs.drop_last().len() && defs.drop_last()[k] == h0[i];
                assert(defs[k] == defs.drop_last()[k]);
            } else {
                assert(h[i] == defs.last());
                assert(defs[defs.len() - 1] == defs.last());
            }
        }
    }
}

/// With distinct names and parallel-safe bodies, the helpers can stand in
/// for the calls to them, given a supply holding every name the definitions
/// mention.
proof fn lemma_helpers_inlinable(defs: Seq<DefTerm>, used: Set<Seq<char>>)
    requires
        distinct_names(defs),
        forall|i: int| 0 <= i < defs.len() ==> parallel_safe(#[trigger] defs[i].body),
        all_used(definitions_names(defs), used),
    ensures
        inlinable(helpers_of(defs), defs, used),
{
    let hs = helpers_of(defs);
    lemma_helpers_members(defs);
    assert forall|i: int| 0 <= i < hs.len() implies !has_call(#[trigger] hs[i].body) && parallel_safe(hs[i].body)
        && all_used(names_in(hs[i].body), used) by {
        assert(is_inline_candidate(hs[i]));
        let k = choose|k: int| 0 <= k < defs.len() && defs[k] == hs[i];
        assert(parallel_safe(defs[k].body));
        lemma_definitions_names_cover(defs, k);
        lemma_all_used_fewer(definitions_names(defs), names_in(defs[k].body), used);
    }
    assert forall|name: Seq<char>| #[trigger] find_def(hs, name) is Some implies find_def(defs, name) == find_def(
        hs,
        name,
    ) by {
        lemma_find_def_index(hs, name);
        let j = choose|j: int|
            0 <= j < hs.len() && hs[j].name == name && (forall|m: int| j < m < hs.len() ==> hs[m].name != name)
                && find_def(hs, name) == Some(hs[j]);
        assert(is_inline_candidate(hs[j]));
        let k = choose|k: int| 0 <= k < defs.len() && defs[k] == hs[j];
        lemma_find_def_index(defs, name);
        assert(defs[k].name == name);
        let k2 = choose|k2: int|
            0 <= k2 < defs.len() && defs[k2].name == name && (forall|m: int| k2 < m < defs.len() ==> defs[m].name != name)
                && find_def(defs, name) == Some(defs[k2]);
        if k < k2 {
            assert(defs[k].name != defs[k2].name);
        }
        if k2 < k {
            assert(defs[k2].name != defs[k].name);
        }
    }
}

/// Inlining every body keeps each definition's name and parameters, keeps
/// what each body computes with the unchanged definitions, its literals in
/// range and its scopes unshadowed; the supply only grows.
proof fn lemma_inline_defs_facts(defs: Seq<DefTerm>, helpers: Seq<DefTerm>, ds: Seq<DefTerm>, st: FreshState)
    requires
        st.used.finite(),
        all_used(definitions_names(ds), st.used),
        inlinable(helpers, defs, st.used),
        helpers_fit(helpers),
        well_scoped(ds),
    ensures
        inline_defs(ds, helpers, st).1.used.finite(),
        st.used.subset_of(inline_defs(ds, helpers, st).1.used),
        inline_defs(ds, helpers, st).0.len() == ds.len(),
        forall|i: int|
            0 <= i < ds.len() ==> (#[trigger] inline_defs(ds, helpers, st).0[i]).name == ds[i].name && inline_defs(
                ds,
                helpers,
                st,
            ).0[i].params == ds[i].params,
        well_scoped(inline_defs(ds, helpers, st).0),
        forall|i: int, env: Map<Seq<char>, Value>, fuel: nat|
            0 <= i < ds.len() && evaluated(defs, ds[i].body, env, fuel) is Some ==> #[trigger] evaluated(
                defs,
                inline_defs(ds, helpers, st).0[i].body,
                env,
                fuel,
            ) == evaluated(defs, ds[i].body, env, fuel),
        all_used(definitions_names(inline_defs(ds, helpers, st).0), inline_defs(ds, helpers, st).1.used),
        forall|i: int|
            0 <= i < ds.len() && parallel_safe(ds[i].body) && (has_call(ds[i].body) ==> binds_no_helper_name(
                helpers,
                binders_of(ds[i].body),
            )) ==> parallel_safe(#[trigger] inline_defs(ds, helpers, st).0[i].body),
    decreases ds.len(),
{
    if ds.len() > 0 {
        let fr = ds.drop_last();
        let d = ds.last();
        let last = ds.len() - 1;
        let whole = definitions_names(ds);
        assert(whole == definitions_names(fr) + seq![d.name] + d.params + names_in(d.body));
        lemma_within_concat(definitions_names(fr) + seq![d.name] + d.params, names_in(d.body), whole);
        lemma_within_concat(definitions_names(fr) + seq![d.name], d.params, whole);
        lemma_within_concat(definitions_names(fr), seq![d.name], whole);
        lemma_all_used_fewer(whole, definitions_names(fr), st.used);
        lemma_all_used_fewer(whole, names_in(d.body), st.used);
        assert(well_scoped(fr)) by {
            assert forall|i: int| 0 <= i < fr.len() implies literals_fit(#[trigger] fr[i].body) && unshadowed(
                fr[i].body,
                Seq::empty(),
            ) by {
                assert(fr[i] == ds[i]);
            }
        }
        assert(ds[last] == d);
        lemma_inline_defs_facts(defs, helpers, fr, st);
        let (front, s1) = inline_defs(fr, helpers, st);
        lemma_all_used_more(names_in(d.body), st.used, s1.used);
        lemma_inlinable_more_used(helpers, defs, st.used, s1.used);
        let (b, s2) = inlined(d.body, helpers, s1);
        lemma_inlined_names(helpers, defs, d.body, s1);
        lemma_inlined_fits(helpers, d.body, s1);
        lemma_inlined_unshadowed(helpers, defs, d.body, s1, Seq::empty());
        lemma_inlined_shape(helpers, defs, d.body, s1);
        if !has_call(d.body) {
            lemma_inlined_call_free(helpers, d.body, s1);
        }
        let out = inline_defs(ds, helpers, st).0;
        assert(out == front.push(with_body(d, b)));
        assert(out.drop_last() =~= front);
        assert(definitions_names(out) == definitions_names(front) + seq![d.name] + d.params + names_in(b));
        lemma_all_used_more(definitions_names(front), s1.used, s2.used);
        lemma_all_used_fewer(whole, seq![d.name], st.used);
        lemma_all_used_fewer(whole, d.params, st.used);
        lemma_all_used_more(seq![d.name], st.used, s2.used);
        lemma_all_used_more(d.params, st.used, s2.used);
        lemma_all_used_concat(definitions_names(front), seq![d.name], s2.used);
        lemma_all_used_concat(definitions_names(front) + seq![d.name], d.params, s2.used);
        lemma_all_used_concat(definitions_names(front) + seq![d.name] + d.params, names_in(b), s2.used);
        assert forall|i: int|
            0 <= i < ds.len() && parallel_safe(ds[i].body) && (has_call(ds[i].body) ==> binds_no_helper_name(
                helpers,
                binders_of(ds[i].body),
            )) implies parallel_safe(#[trigger] out[i].body) by {
            if i < last {
                assert(out[i] == front[i]);
                assert(fr[i] == ds[i]);
            }
        }
        assert forall|i: int| 0 <= i < ds.len() implies (#[trigger] out[i]).name == ds[i].name && out[i].params
            == ds[i].params by {
            if i < last {
                assert(out[i] == front[i]);
                assert(fr[i] == ds[i]);
            }
        }
        assert forall|i: int| 0 <= i < out.len() implies literals_fit(#[trigger] out[i].body) && unshadowed(
            out[i].body,
            Seq::empty(),
        ) by {
            if i < last {
                assert(out[i] == front[i]);
            }
        }
        assert forall|i: int, env: Map<Seq<char>, Value>, fuel: nat|
            0 <= i < ds.len() && evaluated(defs, ds[i].body, env, fuel) is Some implies #[trigger] evaluated(
                defs,
                out[i].body,
                env,
                fuel,
            ) == evaluated(defs, ds[i].body, env, fuel) by {
            if i < last {
                assert(out[i] == front[i]);
                assert(fr[i] == ds[i]);
                assert(evaluated(defs, front[i].body, env, fuel) == evaluated(defs, fr[i].body, env, fuel));
            } else {
                lemma_inlined_keeps_value(defs, helpers, d.body, s1, env, fuel);
            }
        }
    }
}

/// Each definition of `q` computes, calling `q`'s definitions, every value
/// that the same definition of `p` computes calling `p`'s.
pub open spec fn keeps_definitions(p: Seq<DefTerm>, q: Seq<DefTerm>) -> bool {
    &&& q.len() == p.len()
    &&& forall|i: int| 0 <= i < p.len() ==> (#[trigger] q[i]).name == p[i].name && q[i].params == p[i].params
    &&& forall|i: int, env: Map<Seq<char>, Value>, fuel: nat|
        0 <= i < p.len() && evaluated(p, p[i].body, env, fuel) is Some ==> #[trigger] evaluated(q, q[i].body, env, fuel)
            == evaluated(p, p[i].body, env, fuel)
}

pub(crate) proof fn lemma_refines_keeps(p: Seq<DefTerm>, q: Seq<DefTerm>)
    requires
        refines_bodies(p, q),
    ensures
        keeps_definitions(p, q),
{
    assert forall|i: int, env: Map<Seq<char>, Value>, fuel: nat|
        0 <= i < p.len() && evaluated(p, p[i].body, env, fuel) is Some implies #[trigger] evaluated(
            q,
            q[i].body,
            env,
            fuel,
        ) == evaluated(p, p[i].body, env, fuel) by {
        assert(evaluated(p, q[i].body, env, fuel) == evaluated(p, p[i].body, env, fuel));
        lemma_refined_defs_keep_value(p, q, q[i].body, env, fuel);
    }
}

proof fn lemma_keeps_trans(p: Seq<DefTerm>, q: Seq<DefTerm>, r: Seq<DefTerm>)
    requires
        keeps_definitions(p, q),
        keeps_definitions(q, r),
    ensures
        keeps_definitions(p, r),
{
    assert forall|i: int, env: Map<Seq<char>, Value>, fuel: nat|
        0 <= i < p.len() && evaluated(p, p[i].body, env, fuel) is Some implies #[trigger] evaluated(
            r,
            r[i].body,
            env,
            fuel,
        ) == evaluated(p, p[i].body, env, fuel) by {
        assert(evaluated(q, q[i].body, env, fuel) == evaluated(p, p[i].body, env, fuel));
        assert(evaluated(r, r[i].body, env, fuel) == evaluated(q, q[i].body, env, fuel));
    }
}

proof fn lemma_keeps_self(p: Seq<DefTerm>)
    ensures
        keeps_definitions(p, p),
{
}

/// Settling every body refines it.
proof fn lemma_settled_refines(p: Seq<DefTerm>, q: Seq<DefTerm>, propagate: bool)
    requires
        settled_defs(p, q, propagate),
        well_scoped(p),
    ensures
        refines_bodies(p, q),
{
    assert forall|i: int, env: Map<Seq<char>, Value>, fuel: nat|
        0 <= i < p.len() && evaluated(p, p[i].body, env, fuel) is Some implies #[trigger] evaluated(
            p,
            q[i].body,
            env,
            fuel,
        ) == evaluated(p, p[i].body, env, fuel) by {
        assert(q[i] == with_body(p[i], settled(p[i].body, propagate, 4)));
        lemma_settled_keeps_value(p, p[i].body, propagate, 4, env, fuel);
    }
}

/// Optimizing once reshaping gave `p1`: the same, stated of `p1`.
proof fn lemma_optimizing_shaped_keeps_result(
    p: ProgramTerm,
    o: Options,
    p1: ProgramTerm,
    env: Map<Seq<char>, Value>,
    fuel: nat,
)
    requires
        p1 == reshaped(pevaled(p, o.peval as nat), o.shape),
        o.inline_helpers && o.tail_unroll > 1 ==> forall|i: int|
            0 <= i < p1.definitions.len() && has_call(p1.definitions[i].body) ==> binds_no_helper_name(
                helpers_of(p1.definitions),
                binders_of(#[trigger] p1.definitions[i].body),
            ),
        !o.common_subexpressions,
        well_scoped(p1.definitions),
        distinct_names(p1.definitions),
        o.inline_helpers || o.tail_unroll > 1 ==> forall|i: int|
            0 <= i < p1.definitions.len() ==> parallel_safe(#[trigger] p1.definitions[i].body),
        p1.body matches Some(b) && literals_fit(b) && unshadowed(b, Seq::empty()) && evaluated(
            p1.definitions,
            b,
            env,
            fuel,
        ) is Some,
    ensures
        optimized(p, o).body is Some,
        evaluated(optimized(p, o).definitions, optimized(p, o).body.unwrap(), env, fuel) == evaluated(
            p1.definitions,
            p1.body.unwrap(),
            env,
            fuel,
        ),
        keeps_definitions(p1.definitions, optimized(p, o).definitions),
{
    let defs = p1.definitions;
    let b = p1.body.unwrap();
    let prop = o.constant_propagation;
    let st0 = FreshState { next: 0, used: program_names(p1).to_set() };
    let helpers = helpers_of(defs);
    if o.inline_helpers && helpers.len() > 0 {
        vstd::seq_lib::seq_to_set_is_finite(program_names(p1));
        assert(all_used(program_names(p1), st0.used));
        assert(program_names(p1) == definitions_names(defs) + names_in(b));
        lemma_within_concat(definitions_names(defs), names_in(b), program_names(p1));
        lemma_all_used_fewer(program_names(p1), definitions_names(defs), st0.used);
        lemma_all_used_fewer(program_names(p1), names_in(b), st0.used);
        lemma_helpers_inlinable(defs, st0.used);
        lemma_helpers_members(defs);
        assert forall|i: int| 0 <= i < helpers.len() implies literals_fit(#[trigger] helpers[i].body) by {
            assert(is_inline_candidate(helpers[i]));
            let k = choose|k: int| 0 <= k < defs.len() && defs[k] == helpers[i];
            assert(literals_fit(defs[k].body));
        }
        lemma_inline_defs_facts(defs, helpers, defs, st0);
        let (q, s1) = inline_defs(defs, helpers, st0);
        lemma_all_used_more(names_in(b), st0.used, s1.used);
        lemma_inlinable_more_used(helpers, defs, st0.used, s1.used);
        let (b1, s2) = inlined(b, helpers, s1);
        lemma_inlined_keeps_value(defs, helpers, b, s1, env, fuel);
        lemma_inlined_fits(helpers, b, s1);
        lemma_inlined_unshadowed(helpers, defs, b, s1, Seq::empty());
        assert(refines_bodies(defs, q));
        lemma_refined_defs_keep_value(defs, q, b1, env, fuel);
        let (defs2, st2) = if o.tail_unroll > 1 {
            unroll_defs(q, o.tail_unroll as nat, s2)
        } else {
            (q, s2)
        };
        if o.tail_unroll > 1 {
            lemma_inlined_names(helpers, defs, b, s1);
            lemma_all_used_more(definitions_names(q), s1.used, s2.used);
            assert forall|i: int, j: int| #![trigger q[i], q[j]] 0 <= i < j < q.len() implies q[i].name != q[j].name by {
                assert(defs[i].name != defs[j].name);
            }
            lemma_distinct_find_def(q);
            assert forall|i: int| 0 <= i < q.len() implies parallel_safe(#[trigger] q[i].body) by {
                assert(parallel_safe(defs[i].body));
                if has_call(defs[i].body) {
                    assert(binds_no_helper_name(helpers, binders_of(defs[i].body)));
                }
            }
            lemma_unroll_defs_facts(q, q, o.tail_unroll as nat, s2);
            assert(refines_bodies(q, defs2));
            lemma_refined_defs_keep_value(q, defs2, b1, env, fuel);
            lemma_refines_keeps(q, defs2);
        } else {
            lemma_keeps_self(q);
        }
        lemma_finish_defs_settles(defs2, prop, st2);
        let r = finish_defs(defs2, prop, false, st2).0;
        let sb = settled(b1, prop, 4);
        assert(optimized(p, o).definitions == r);
        assert(optimized(p, o).body == Some(sb));
        lemma_settled_keeps_value(defs2, b1, prop, 4, env, fuel);
        lemma_settled_defs_refine(defs2, r, prop, sb, env, fuel);
        lemma_refines_keeps(defs, q);
        lemma_settled_refines(defs2, r, prop);
        lemma_refines_keeps(defs2, r);
        lemma_keeps_trans(defs, q, defs2);
        lemma_keeps_trans(defs, defs2, r);
    } else {
        let (defs2, st2) = if o.tail_unroll > 1 {
            unroll_defs(defs, o.tail_unroll as nat, st0)
        } else {
            (defs, st0)
        };
        if o.tail_unroll > 1 {
            vstd::seq_lib::seq_to_set_is_finite(program_names(p1));
            assert(all_used(program_names(p1), st0.used));
            assert(program_names(p1) == definitions_names(defs) + names_in(b));
            lemma_within_concat(definitions_names(defs), names_in(b), program_names(p1));
            lemma_all_used_fewer(program_names(p1), definitions_names(defs), st0.used);
            lemma_distinct_find_def(defs);
            lemma_unroll_defs_facts(defs, defs, o.tail_unroll as nat, st0);
            assert(refines_bodies(defs, defs2));
            lemma_refined_defs_keep_value(defs, defs2, b, env, fuel);
            lemma_refines_keeps(defs, defs2);
        } else {
            lemma_keeps_self(defs);
        }
        lemma_finish_defs_settles(defs2, prop, st2);
        let r = finish_defs(defs2, prop, false, st2).0;
        let sb = settled(b, prop, 4);
        assert(optimized(p, o).definitions == r);
        assert(optimized(p, o).body == Some(sb));
        lemma_settled_keeps_value(defs2, b, prop, 4, env, fuel);
        lemma_settled_defs_refine(defs2, r, prop, sb, env, fuel);
        lemma_settled_refines(defs2, r, prop);
        lemma_refines_keeps(defs2, r);
        lemma_keeps_trans(defs, defs2, r);
    }
}

/// Optimizing with sharing and partial evaluation off, stated as the
/// public law below states it.
proof fn lemma_optimizing_plain_keeps_result(p: ProgramTerm, o: Options, env: Map<Seq<char>, Value>, fuel: nat)
    requires
        !o.common_subexpressions,
        !(o.shape is Balanced),
        o.inline_helpers && o.tail_unroll > 1 ==> o.shape == Shape::AsWritten && forall|i: int|
            0 <= i < p.definitions.len() && has_call(p.definitions[i].body) ==> binds_no_helper_name(
                helpers_of(p.definitions),
                binders_of(#[trigger] p.definitions[i].body),
            ),
        o.peval == 0,
        well_scoped(p.definitions),
        distinct_names(p.definitions),
        o.inline_helpers || o.tail_unroll > 1 ==> forall|i: int|
            0 <= i < p.definitions.len() ==> parallel_safe(#[trigger] p.definitions[i].body),
        p.body matches Some(b) && literals_fit(b) && unshadowed(b, Seq::empty()) && evaluated(
            p.definitions,
            b,
            env,
            fuel,
        ) is Some,
    ensures
        optimized(p, o).body is Some,
        evaluated(optimized(p, o).definitions, optimized(p, o).body.unwrap(), env, fuel) == evaluated(
            p.definitions,
            p.body.unwrap(),
            env,
            fuel,
        ),
        keeps_definitions(p.definitions, optimized(p, o).definitions),
{
    let p1 = reshaped(p, o.shape);
    if let Shape::Chunked(k) = o.shape {
        crate::chunking::lemma_chunk_reshaped_facts(p, k);
        let b = p.body.unwrap();
        let b1 = p1.body.unwrap();
        lemma_refined_defs_keep_value(p.definitions, p1.definitions, b1, env, fuel);
        lemma_optimizing_shaped_keeps_result(p, o, p1, env, fuel);
        lemma_refines_keeps(p.definitions, p1.definitions);
        lemma_keeps_trans(p.definitions, p1.definitions, optimized(p, o).definitions);
    } else {
        lemma_as_written_is_identity(p);
        lemma_optimizing_shaped_keeps_result(p, o, p1, env, fuel);
    }
}

/// What inlining and unrolling leave for the finishing passes: the
/// definitions, the final expression and the name supply.
spec fn prepared(p1: ProgramTerm, o: Options) -> (Seq<DefTerm>, Option<Term>, FreshState) {
    let st0 = FreshState { next: 0, used: program_names(p1).to_set() };
    let helpers = helpers_of(p1.definitions);
    let (defs1, body1, st1) = if o.inline_helpers && helpers.len() > 0 {
        let (d, s1) = inline_defs(p1.definitions, helpers, st0);
        match p1.body {
            Some(b) => {
                let (x, s2) = inlined(b, helpers, s1);
                (d, Some(x), s2)
            },
            None => (d, None, s1),
        }
    } else {
        (p1.definitions, p1.body, st0)
    };
    let (defs2, st2) = if o.tail_unroll > 1 {
        unroll_defs(defs1, o.tail_unroll as nat, st1)
    } else {
        (defs1, st1)
    };
    (defs2, body1, st2)
}

/// The name supply that reaches the finishing passes holds every name that
/// the bodies they finish mention.
proof fn lemma_prepared_supply(p: ProgramTerm, o: Options, p1: ProgramTerm)
    requires
        p1 == reshaped(pevaled(p, o.peval as nat), o.shape),
        well_scoped(p1.definitions),
        distinct_names(p1.definitions),
        o.inline_helpers || o.tail_unroll > 1 ==> forall|i: int|
            0 <= i < p1.definitions.len() ==> parallel_safe(#[trigger] p1.definitions[i].body),
        p1.body is Some,
    ensures
        ({
            let (defs2, body1, st2) = prepared(p1, o);
            let (defs3, st3) = finish_defs(defs2, o.constant_propagation, o.common_subexpressions, st2);
            &&& st2.used.finite()
            &&& forall|i: int| 0 <= i < defs2.len() ==> all_used(names_in(#[trigger] defs2[i].body), st2.used)
            &&& body1 is Some
            &&& all_used(names_in(body1.unwrap()), st2.used)
            &&& optimized(p, o).definitions == defs3
            &&& optimized(p, o).body == Some(
                finished(body1.unwrap(), o.constant_propagation, o.common_subexpressions, st3).0,
            )
        }),
{
    let defs = p1.definitions;
    let b = p1.body.unwrap();
    let st0 = FreshState { next: 0, used: program_names(p1).to_set() };
    let helpers = helpers_of(defs);
    vstd::seq_lib::seq_to_set_is_finite(program_names(p1));
    assert(all_used(program_names(p1), st0.used));
    assert(program_names(p1) == definitions_names(defs) + names_in(b));
    lemma_within_concat(definitions_names(defs), names_in(b), program_names(p1));
    lemma_all_used_fewer(program_names(p1), definitions_names(defs), st0.used);
    lemma_all_used_fewer(program_names(p1), names_in(b), st0.used);
    let (defs1, body1, st1) = if o.inline_helpers && helpers.len() > 0 {
        let (d, s1) = inline_defs(defs, helpers, st0);
        let (x, s2) = inlined(b, helpers, s1);
        (d, Some(x), s2)
    } else {
        (defs, p1.body, st0)
    };
    if o.inline_helpers && helpers.len() > 0 {
        lemma_helpers_inlinable(defs, st0.used);
        lemma_helpers_members(defs);
        assert forall|i: int| 0 <= i < helpers.len() implies literals_fit(#[trigger] helpers[i].body) by {
            assert(is_inline_candidate(helpers[i]));
            let k = choose|k: int| 0 <= k < defs.len() && defs[k] == helpers[i];
            assert(literals_fit(defs[k].body));
        }
        lemma_inline_defs_facts(defs, helpers, defs, st0);
        let (q, s1) = inline_defs(defs, helpers, st0);
        lemma_all_used_more(names_in(b), st0.used, s1.used);
        lemma_inlinable_more_used(helpers, defs, st0.used, s1.used);
        lemma_inlined_names(helpers, defs, b, s1);
        let s2 = inlined(b, helpers, s1).1;
        lemma_all_used_more(definitions_names(q), s1.used, s2.used);
    }
    assert(all_used(definitions_names(defs1), st1.used) && st1.used.finite() && all_used(
        names_in(body1.unwrap()),
        st1.used,
    ));
    assert forall|i: int| 0 <= i < defs1.len() implies all_used(names_in(#[trigger] defs1[i].body), st1.used) by {
        lemma_definitions_names_cover(defs1, i);
        lemma_all_used_fewer(definitions_names(defs1), names_in(defs1[i].body), st1.used);
    }
    if o.tail_unroll > 1 {
        lemma_unroll_defs_names(defs1, o.tail_unroll as nat, st1);
        lemma_all_used_more(names_in(body1.unwrap()), st1.used, unroll_defs(defs1, o.tail_unroll as nat, st1).1.used);
    }
    assert(prepared(p1, o) == (
        if o.tail_unroll > 1 {
            unroll_defs(defs1, o.tail_unroll as nat, st1).0
        } else {
            defs1
        },
        body1,
        if o.tail_unroll > 1 {
            unroll_defs(defs1, o.tail_unroll as nat, st1).1
        } else {
            st1
        },
    ));
}

/// With sharing on, every optimized body that is well formed computes what
/// the same body optimized with sharing off computes.
proof fn lemma_optimizing_with_sharing(p: ProgramTerm, o: Options, p1: ProgramTerm)
    requires
        p1 == reshaped(pevaled(p, o.peval as nat), o.shape),
        o.common_subexpressions,
        well_scoped(p1.definitions),
        distinct_names(p1.definitions),
        o.inline_helpers || o.tail_unroll > 1 ==> forall|i: int|
            0 <= i < p1.definitions.len() ==> parallel_safe(#[trigger] p1.definitions[i].body),
        p1.body is Some,
        bodies_well_formed(optimized(p, o).definitions),
        optimized(p, o).body matches Some(b) && well_formed_in(b, Seq::empty()),
    ensures
        ({
            let q = optimized(p, o);
            let r = optimized(p, Options { common_subexpressions: false, ..o });
            &&& r.body is Some
            &&& refines_calls(r.definitions, q.definitions)
            &&& forall|env: Map<Seq<char>, Value>, fuel: nat|
                #[trigger] evaluated(r.definitions, q.body.unwrap(), env, fuel) == evaluated(
                    r.definitions,
                    r.body.unwrap(),
                    env,
                    fuel,
                )
        }),
{
    let o2 = Options { common_subexpressions: false, ..o };
    let prop = o.constant_propagation;
    lemma_prepared_supply(p, o, p1);
    lemma_prepared_supply(p, o2, p1);
    assert(prepared(p1, o2) == prepared(p1, o));
    let (defs2, body1, st2) = prepared(p1, o);
    let q = optimized(p, o);
    let r = optimized(p, o2);
    lemma_finished_sharing_keeps_calls(defs2, prop, st2, r.definitions);
    let (a, st3) = finish_defs(defs2, prop, true, st2);
    let sb = settled(body1.unwrap(), prop, 4);
    lemma_settled_names(body1.unwrap(), prop, 4);
    assert(all_used(names_in(sb), st2.used)) by {
        assert forall|n: Seq<char>| #[trigger] names_in(sb).contains(n) implies st2.used.contains(n) by {
            assert(names_in(body1.unwrap()).contains(n));
        }
    }
    lemma_all_used_more(names_in(sb), st2.used, st3.used);
    assert(q.body == Some(shared(sb, st3).0));
    assert(r.body == Some(sb));
    assert forall|env: Map<Seq<char>, Value>, fuel: nat|
        #[trigger] evaluated(r.definitions, q.body.unwrap(), env, fuel) == evaluated(
            r.definitions,
            r.body.unwrap(),
            env,
            fuel,
        ) by {
        lemma_sharing_keeps_value(r.definitions, sb, st3, env, fuel, Seq::empty());
    }
    assert forall|i: int, env: Map<Seq<char>, Value>, fuel: nat|
        0 <= i < r.definitions.len() && binds_all(env, r.definitions[i].params) && evaluated(
            r.definitions,
            r.definitions[i].body,
            env,
            fuel,
        ) is Some implies #[trigger] evaluated(r.definitions, q.definitions[i].body, env, fuel) == evaluated(
        r.definitions,
        r.definitions[i].body,
        env,
        fuel,
    ) by {
        assert(q.definitions[i].params == r.definitions[i].params);
        assert(forall|n: Seq<char>| #[trigger] q.definitions[i].params.contains(n) ==> env.contains_key(n));
    }
}

/// Each definition of `q`, called with every parameter bound, computes with
/// `q`'s definitions every value that the same definition of `p` computes
/// with `p`'s.
pub open spec fn keeps_calls(p: Seq<DefTerm>, q: Seq<DefTerm>) -> bool {
    &&& q.len() == p.len()
    &&& forall|i: int| 0 <= i < p.len() ==> (#[trigger] q[i]).name == p[i].name && q[i].params == p[i].params
    &&& forall|i: int, env: Map<Seq<char>, Value>, fuel: nat|
        0 <= i < p.len() && binds_all(env, p[i].params) && evaluated(p, p[i].body, env, fuel) is Some
            ==> #[trigger] evaluated(q, q[i].body, env, fuel) == evaluated(p, p[i].body, env, fuel)
}

/// Without partial evaluation or the balanced reshape, optimizing a program
/// never changes a result it computed, inlining small helpers, unrolling
/// tail recurrences, sharing repeated numeric work and re-emitting
/// reductions in chunks included: when its definitions have distinct names
/// and their bodies, as its final expression, keep their literals in range
/// and rebind no name in scope, and, where inlining or unrolling is on, no
/// `let` value in a body reads a name its own `let` binds, the optimized
/// final expression, calling the optimized definitions, gives the value the
/// program gave, and every optimized definition, called with its parameters
/// bound, gives every value the original definition gave (with sharing off,
/// whatever it is called with). Inlining and unrolling together are covered
/// with reductions as written, where no body that makes calls binds in a
/// `let` a name that a helper mentions beyond its parameters. Sharing is
/// covered where every optimized body reads only its parameters and names
/// it binds itself, rebinds none of them, keeps its literals in range and
/// applies every primitive to two operands: a tree hoisted out of the `let`
/// that binds a name it reads would break the first of these.
pub proof fn lemma_optimizing_keeps_program_result(p: ProgramTerm, o: Options, env: Map<Seq<char>, Value>, fuel: nat)
    requires
        !(o.shape is Balanced),
        o.inline_helpers && o.tail_unroll > 1 ==> o.shape == Shape::AsWritten && forall|i: int|
            0 <= i < p.definitions.len() && has_call(p.definitions[i].body) ==> binds_no_helper_name(
                helpers_of(p.definitions),
                binders_of(#[trigger] p.definitions[i].body),
            ),
        o.peval == 0,
        well_scoped(p.definitions),
        distinct_names(p.definitions),
        o.inline_helpers || o.tail_unroll > 1 ==> forall|i: int|
            0 <= i < p.definitions.len() ==> parallel_safe(#[trigger] p.definitions[i].body),
        p.body matches Some(b) && literals_fit(b) && unshadowed(b, Seq::empty()) && evaluated(
            p.definitions,
            b,
            env,
            fuel,
        ) is Some,
        o.common_subexpressions ==> bodies_well_formed(optimized(p, o).definitions) && (optimized(
            p,
            o,
        ).body matches Some(b) && well_formed_in(b, Seq::empty())),
    ensures
        optimized(p, o).body is Some,
        evaluated(optimized(p, o).definitions, optimized(p, o).body.unwrap(), env, fuel) == evaluated(
            p.definitions,
            p.body.unwrap(),
            env,
            fuel,
        ),
        keeps_calls(p.definitions, optimized(p, o).definitions),
        !o.common_subexpressions ==> keeps_definitions(p.definitions, optimized(p, o).definitions),
{
    let o2 = Options { common_subexpressions: false, ..o };
    lemma_optimizing_plain_keeps_result(p, o2, env, fuel);
    let r = optimized(p, o2);
    if !o.common_subexpressions {
        assert(o2 == o);
    } else {
        let q = optimized(p, o);
        let p1 = reshaped(pevaled(p, o.peval as nat), o.shape);
        if let Shape::Chunked(k) = o.shape {
            crate::chunking::lemma_chunk_reshaped_facts(p, k);
        } else {
            lemma_as_written_is_identity(p);
        }
        lemma_optimizing_with_sharing(p, o, p1);
        assert(evaluated(r.definitions, q.body.unwrap(), env, fuel) == evaluated(
            r.definitions,
            r.body.unwrap(),
            env,
            fuel,
        ));
        lemma_called_defs_keep_value(r.definitions, q.definitions, q.body.unwrap(), env, fuel);
        assert forall|i: int, e: Map<Seq<char>, Value>, f: nat|
            0 <= i < p.definitions.len() && binds_all(e, p.definitions[i].params) && evaluated(
                p.definitions,
                p.definitions[i].body,
                e,
                f,
            ) is Some implies #[trigger] evaluated(q.definitions, q.definitions[i].body, e, f) == evaluated(
            p.definitions,
            p.definitions[i].body,
            e,
            f,
        ) by {
            assert(evaluated(r.definitions, r.definitions[i].body, e, f) == evaluated(
                p.definitions,
                p.definitions[i].body,
                e,
                f,
            ));
            assert(r.definitions[i].params == p.definitions[i].params);
            assert(evaluated(r.definitions, q.definitions[i].body, e, f) == evaluated(
                r.definitions,
                r.definitions[i].body,
                e,
                f,
            ));
            lemma_called_defs_keep_value(r.definitions, q.definitions, q.definitions[i].body, e, f);
        }
        assert forall|i: int| 0 <= i < p.definitions.len() implies (#[trigger] q.definitions[i]).name
            == p.definitions[i].name && q.definitions[i].params == p.definitions[i].params by {
            assert(r.definitions[i].name == p.definitions[i].name);
        }
    }
}

// ---------------------------------------------------------------------------
// Unrolling a tail recurrence
// ---------------------------------------------------------------------------

/// More fuel never changes a value that less fuel computed.
pub proof fn lemma_more_fuel(defs: Seq<DefTerm>, t: Term, env: Map<Seq<char>, Value>, f1: nat, f2: nat)
    requires
        f1 <= f2,
        evaluated(defs, t, env, f1) is Some,
    ensures
        evaluated(defs, t, env, f2) == evaluated(defs, t, env, f1),
    decreases f1, t,
{
    match t {
        Term::Primitive { op, args } => {
            if args.len() == 2 {
                lemma_more_fuel(defs, args[0], env, f1, f2);
                lemma_more_fuel(defs, args[1], env, f1, f2);
            }
        },
        Term::Call { callee, args } => {
            lemma_more_fuel_all(defs, args, env, f1, f2);
            let values = evaluated_all(defs, args, env, f1).unwrap();
            let d = find_def(defs, callee).unwrap();
            lemma_more_fuel(defs, d.body, bound_params(d.params, values), (f1 - 1) as nat, (f2 - 1) as nat);
        },
        Term::If { condition, then_branch, else_branch } => {
            lemma_more_fuel(defs, *condition, env, f1, f2);
            if let Some(Value::Num(c)) = evaluated(defs, *condition, env, f1) {
                if c == 0 {
                    lemma_more_fuel(defs, *else_branch, env, f1, f2);
                } else {
                    lemma_more_fuel(defs, *then_branch, env, f1, f2);
                }
            }
        },
        Term::Let { bindings, body } => {
            lemma_more_fuel_bindings(defs, bindings, env, f1, f2);
            let inner = bound_in(defs, bindings, env, f1).unwrap();
            lemma_more_fuel(defs, *body, inner, f1, f2);
        },
        Term::Cons(h, tl) => {
            lemma_more_fuel(defs, *h, env, f1, f2);
            lemma_more_fuel(defs, *tl, env, f1, f2);
        },
        Term::Car(v) => lemma_more_fuel(defs, *v, env, f1, f2),
        Term::Cdr(v) => lemma_more_fuel(defs, *v, env, f1, f2),
        Term::Null(v) => lemma_more_fuel(defs, *v, env, f1, f2),
        _ => {},
    }
}

proof fn lemma_more_fuel_all(defs: Seq<DefTerm>, s: Seq<Term>, env: Map<Seq<char>, Value>, f1: nat, f2: nat)
    requires
        f1 <= f2,
        evaluated_all(defs, s, env, f1) is Some,
    ensures
        evaluated_all(defs, s, env, f2) == evaluated_all(defs, s, env, f1),
    decreases f1, s,
{
    if s.len() > 0 {
        lemma_more_fuel_all(defs, s.drop_last(), env, f1, f2);
        lemma_more_fuel(defs, s.last(), env, f1, f2);
    }
}

proof fn lemma_more_fuel_bindings(
    defs: Seq<DefTerm>,
    s: Seq<(Seq<char>, Term)>,
    env: Map<Seq<char>, Value>,
    f1: nat,
    f2: nat,
)
    requires
        f1 <= f2,
        bound_in(defs, s, env, f1) is Some,
    ensures
        bound_in(defs, s, env, f2) == bound_in(defs, s, env, f1),
    decreases f1, s,
{
    if s.len() > 0 {
        lemma_more_fuel_bindings(defs, s.drop_last(), env, f1, f2);
        let inner = bound_in(defs, s.drop_last(), env, f1).unwrap();
        lemma_more_fuel(defs, s.last().1, inner, f1, f2);
    }
}

/// Expanding tail calls only takes names from the supply.
proof fn lemma_expanded_grows(t: Term, d: DefTerm, remaining: nat, st: FreshState)
    requires
        st.used.finite(),
    ensures
        expanded(t, d, remaining, st).1.used.finite(),
        st.used.subset_of(expanded(t, d, remaining, st).1.used),
    decreases remaining, t,
{
    match t {
        Term::Call { callee, args } => {
            if callee == d.name && remaining > 0 {
                let k = zip_len(d.params.len(), args.len());
                let (env, bs, s1) = bind_fresh(d.params, args, k, st);
                lemma_bind_fresh(d.params, args, k, st);
                let (activated, s2) = renamed(d.body, env, s1);
                lemma_renamed_grows(d.body, env, s1);
                lemma_expanded_grows(activated, d, (remaining - 1) as nat, s2);
            }
        },
        Term::If { condition, then_branch, else_branch } => {
            let (a, s1) = expanded(*then_branch, d, remaining, st);
            lemma_expanded_grows(*then_branch, d, remaining, st);
            lemma_expanded_grows(*else_branch, d, remaining, s1);
        },
        Term::Let { bindings, body } => lemma_expanded_grows(*body, d, remaining, st),
        _ => {},
    }
}

/// Replacing each self tail call by the body, its arguments each bound once
/// to a fresh name, never changes a value: the expansion computes what the
/// calls computed.
pub proof fn lemma_expanded_keeps_value(
    defs: Seq<DefTerm>,
    d: DefTerm,
    t: Term,
    remaining: nat,
    st: FreshState,
    e: Map<Seq<char>, Value>,
    fuel: nat,
)
    requires
        find_def(defs, d.name) == Some(d),
        parallel_safe(d.body),
        st.used.finite(),
        all_used(names_in(d.body), st.used),
        all_used(names_in(t), st.used),
        evaluated(defs, t, e, fuel) is Some,
    ensures
        evaluated(defs, expanded(t, d, remaining, st).0, e, fuel) == evaluated(defs, t, e, fuel),
    decreases remaining, t,
{
    let u = names_in(t);
    match t {
        Term::Call { callee, args } => {
            if callee == d.name && remaining > 0 {
                let values = evaluated_all(defs, args, e, fuel).unwrap();
                lemma_evaluated_all_each(defs, args, e, fuel);
                let e1 = bound_params(d.params, values);
                let f = (fuel - 1) as nat;
                lemma_more_fuel(defs, d.body, e1, f, fuel);
                lemma_within_concat(seq![callee], names_in_all(args), u);
                lemma_all_used_fewer(u, names_in_all(args), st.used);
                lemma_all_used_each(args, st.used);
                assert(zip_len(d.params.len(), args.len()) == d.params.len());
                let (env, bs, s1) = bind_fresh(d.params, args, d.params.len(), st);
                lemma_bind_fresh(d.params, args, d.params.len(), st);
                lemma_fresh_binding_keeps_value(defs, d, args, st, e, fuel);
                let e2 = bound_in(defs, bs, e, fuel).unwrap();
                let (activated, s2) = renamed(d.body, env, s1);
                lemma_renamed_names(d.body, env, s1);
                lemma_all_used_more(names_in(d.body), st.used, s2.used);
                lemma_expanded_keeps_value(defs, d, activated, (remaining - 1) as nat, s2, e2, fuel);
            }
        },
        Term::If { condition, then_branch, else_branch } => {
            let c0 = names_in(*condition);
            let a0 = names_in(*then_branch);
            let b0 = names_in(*else_branch);
            lemma_within_concat(c0 + a0, b0, u);
            lemma_within_concat(c0, a0, u);
            lemma_all_used_fewer(u, a0, st.used);
            lemma_all_used_fewer(u, b0, st.used);
            let (a, s1) = expanded(*then_branch, d, remaining, st);
            lemma_expanded_grows(*then_branch, d, remaining, st);
            lemma_all_used_more(b0, st.used, s1.used);
            lemma_all_used_more(names_in(d.body), st.used, s1.used);
            if let Some(Value::Num(k)) = evaluated(defs, *condition, e, fuel) {
                if k == 0 {
                    lemma_expanded_keeps_value(defs, d, *else_branch, remaining, s1, e, fuel);
                } else {
                    lemma_expanded_keeps_value(defs, d, *then_branch, remaining, st, e, fuel);
                }
            }
        },
        Term::Let { bindings, body } => {
            lemma_within_concat(names_in_bindings(bindings), names_in(*body), u);
            lemma_all_used_fewer(u, names_in(*body), st.used);
            let inner = bound_in(defs, bindings, e, fuel).unwrap();
            lemma_expanded_keeps_value(defs, d, *body, remaining, st, inner, fuel);
        },
        _ => {},
    }
}


/// Binding fresh names leaves every name in use, and what it is renamed to,
/// in use.
proof fn lemma_bind_fresh_known(
    params: Seq<Seq<char>>,
    args: Seq<Term>,
    k: nat,
    st: FreshState,
    names: Seq<Seq<char>>,
)
    requires
        st.used.finite(),
        k <= params.len(),
        k <= args.len(),
        all_used(names, st.used),
    ensures
        known(names, bind_fresh(params, args, k, st).0, bind_fresh(params, args, k, st).2.used),
{
    let (env, bs, s1) = bind_fresh(params, args, k, st);
    lemma_bind_fresh(params, args, k, st);
    let empty: Renaming = Seq::empty();
    assert(empty + env =~= env);
    assert forall|n: Seq<char>| #[trigger] names.contains(n) implies s1.used.contains(n) && s1.used.contains(
        renamed_to(env, n),
    ) by {
        lemma_renamed_to_extended(empty, env, n);
        if exists|i: int| 0 <= i < env.len() && env[i].0 == n {
            let i = choose|i: int|
                0 <= i < env.len() && env[i].0 == n && (forall|j: int| i < j < env.len() ==> env[j].0 != n)
                    && renamed_to(empty + env, n) == env[i].1;
            assert(env[i] == (params[i], bs[i].0));
        }
    }
}

/// Expanding tail calls mentions only names in use afterwards.
proof fn lemma_expanded_names(t: Term, d: DefTerm, remaining: nat, st: FreshState)
    requires
        st.used.finite(),
        all_used(names_in(t), st.used),
        all_used(names_in(d.body), st.used),
    ensures
        expanded(t, d, remaining, st).1.used.finite(),
        st.used.subset_of(expanded(t, d, remaining, st).1.used),
        all_used(names_in(expanded(t, d, remaining, st).0), expanded(t, d, remaining, st).1.used),
    decreases remaining, t,
{
    broadcast use vstd::seq_lib::lemma_seq_concat_contains_all_elements;

    match t {
        Term::Call { callee, args } => {
            if callee == d.name && remaining > 0 {
                let k = zip_len(d.params.len(), args.len());
                let (env, bs, s1) = bind_fresh(d.params, args, k, st);
                lemma_bind_fresh(d.params, args, k, st);
                lemma_bind_fresh_known(d.params, args, k, st, names_in(d.body));
                lemma_renamed_names(d.body, env, s1);
                let (activated, s2) = renamed(d.body, env, s1);
                lemma_all_used_more(names_in(d.body), st.used, s2.used);
                lemma_expanded_names(activated, d, (remaining - 1) as nat, s2);
                let (b, s3) = expanded(activated, d, (remaining - 1) as nat, s2);
                assert(names_in(t) == seq![callee] + names_in_all(args));
                assert(all_used(names_in_bindings(bs), s3.used)) by {
                    assert forall|n: Seq<char>| #[trigger] names_in_bindings(bs).contains(n) implies s3.used.contains(
                        n,
                    ) by {
                        lemma_names_in_bindings_parts(bs, n);
                        if exists|i: int| 0 <= i < bs.len() && bs[i].0 == n {
                            let i = choose|i: int| 0 <= i < bs.len() && bs[i].0 == n;
                            assert(s1.used.contains(bs[i].0));
                        } else {
                            let i = choose|i: int| 0 <= i < bs.len() && names_in(bs[i].1).contains(n);
                            assert(bs[i].1 == args[i]);
                            lemma_names_in_each(args);
                            assert(names_in_all(args).contains(n));
                            assert(names_in(t).contains(n));
                        }
                    }
                }
                lemma_all_used_concat(names_in_bindings(bs), names_in(b), s3.used);
            }
        },
        Term::If { condition, then_branch, else_branch } => {
            let (a, s1) = expanded(*then_branch, d, remaining, st);
            lemma_within_concat(names_in(*condition) + names_in(*then_branch), names_in(*else_branch), names_in(t));
            lemma_within_concat(names_in(*condition), names_in(*then_branch), names_in(t));
            lemma_all_used_fewer(names_in(t), names_in(*then_branch), st.used);
            lemma_all_used_fewer(names_in(t), names_in(*else_branch), st.used);
            lemma_all_used_fewer(names_in(t), names_in(*condition), st.used);
            lemma_expanded_names(*then_branch, d, remaining, st);
            lemma_all_used_more(names_in(*else_branch), st.used, s1.used);
            lemma_all_used_more(names_in(d.body), st.used, s1.used);
            lemma_expanded_names(*else_branch, d, remaining, s1);
            let (b, s2) = expanded(*else_branch, d, remaining, s1);
            lemma_all_used_more(names_in(*condition), st.used, s2.used);
            lemma_all_used_more(names_in(a), s1.used, s2.used);
            lemma_all_used_concat(names_in(*condition), names_in(a), s2.used);
            lemma_all_used_concat(names_in(*condition) + names_in(a), names_in(b), s2.used);
        },
        Term::Let { bindings, body } => {
            lemma_within_concat(names_in_bindings(bindings), names_in(*body), names_in(t));
            lemma_all_used_fewer(names_in(t), names_in_bindings(bindings), st.used);
            lemma_all_used_fewer(names_in(t), names_in(*body), st.used);
            lemma_expanded_names(*body, d, remaining, st);
            let (b, s1) = expanded(*body, d, remaining, st);
            lemma_all_used_more(names_in_bindings(bindings), st.used, s1.used);
            lemma_all_used_concat(names_in_bindings(bindings), names_in(b), s1.used);
        },
        _ => {},
    }
}

proof fn lemma_names_in_each(s: Seq<Term>)
    ensures
        forall|i: int, n: Seq<char>| 0 <= i < s.len() && #[trigger] names_in(s[i]).contains(n) ==> names_in_all(s).contains(n),
    decreases s.len(),
{
    broadcast use vstd::seq_lib::lemma_seq_concat_contains_all_elements;

    if s.len() > 0 {
        lemma_names_in_each(s.drop_last());
        assert forall|i: int, n: Seq<char>| 0 <= i < s.len() && #[trigger] names_in(s[i]).contains(n) implies names_in_all(
            s,
        ).contains(n) by {
            if i < s.len() - 1 {
                assert(s.drop_last()[i] == s[i]);
                assert(names_in_all(s.drop_last()).contains(n));
            }
        }
    }
}

/// Unrolling the definitions mentions only names in use afterwards.
proof fn lemma_unroll_defs_names(ds: Seq<DefTerm>, factor: nat, st: FreshState)
    requires
        st.used.finite(),
        forall|i: int| 0 <= i < ds.len() ==> all_used(names_in(#[trigger] ds[i].body), st.used),
    ensures
        unroll_defs(ds, factor, st).1.used.finite(),
        st.used.subset_of(unroll_defs(ds, factor, st).1.used),
        unroll_defs(ds, factor, st).0.len() == ds.len(),
        forall|i: int|
            0 <= i < ds.len() ==> all_used(
                names_in(#[trigger] unroll_defs(ds, factor, st).0[i].body),
                unroll_defs(ds, factor, st).1.used,
            ),
    decreases ds.len(),
{
    if ds.len() > 0 {
        let fr = ds.drop_last();
        let d = ds.last();
        let last = ds.len() - 1;
        assert(ds[last] == d);
        assert forall|i: int| 0 <= i < fr.len() implies all_used(names_in(#[trigger] fr[i].body), st.used) by {
            assert(fr[i] == ds[i]);
        }
        lemma_unroll_defs_names(fr, factor, st);
        let (front, s1) = unroll_defs(fr, factor, st);
        lemma_all_used_more(names_in(d.body), st.used, s1.used);
        let (b, s2) = unrolled(d, factor, s1);
        let r: nat = if factor == 0 { 0 } else { (factor - 1) as nat };
        lemma_expanded_names(d.body, d, r, s1);
        let out = unroll_defs(ds, factor, st).0;
        assert(out == front.push(with_body(d, b)));
        assert forall|i: int| 0 <= i < ds.len() implies all_used(
            names_in(#[trigger] out[i].body),
            unroll_defs(ds, factor, st).1.used,
        ) by {
            if i < last {
                assert(out[i] == front[i]);
                lemma_all_used_more(names_in(front[i].body), s1.used, s2.used);
            }
        }
    }
}

/// Expanding tail calls keeps every literal in range.
proof fn lemma_expanded_fits(t: Term, d: DefTerm, remaining: nat, st: FreshState)
    requires
        literals_fit(t),
        literals_fit(d.body),
    ensures
        literals_fit(expanded(t, d, remaining, st).0),
    decreases remaining, t,
{
    match t {
        Term::Call { callee, args } => {
            if callee == d.name && remaining > 0 {
                let k = zip_len(d.params.len(), args.len());
                let (env, bs, s1) = bind_fresh(d.params, args, k, st);
                lemma_bind_fresh_shape(d.params, args, k, st);
                let (activated, s2) = renamed(d.body, env, s1);
                lemma_renamed_fits(d.body, env, s1);
                lemma_expanded_fits(activated, d, (remaining - 1) as nat, s2);
                lemma_literals_fit_each(args);
                assert forall|i: int| 0 <= i < bs.len() implies literals_fit(#[trigger] bs[i].1) by {
                    assert(bs[i].1 == args[i]);
                }
                lemma_fits_bindings_from(bs);
            }
        },
        Term::If { condition, then_branch, else_branch } => {
            let (a, s1) = expanded(*then_branch, d, remaining, st);
            lemma_expanded_fits(*then_branch, d, remaining, st);
            lemma_expanded_fits(*else_branch, d, remaining, s1);
        },
        Term::Let { bindings, body } => lemma_expanded_fits(*body, d, remaining, st),
        _ => {},
    }
}

/// Expanding tail calls shadows nothing: the names it binds are fresh.
proof fn lemma_expanded_unshadowed(t: Term, d: DefTerm, remaining: nat, st: FreshState, scope: Seq<Seq<char>>)
    requires
        st.used.finite(),
        all_used(names_in(t), st.used),
        all_used(names_in(d.body), st.used),
        unshadowed(t, scope),
        avoids_window(scope, st.used, expanded(t, d, remaining, st).1.used),
    ensures
        unshadowed(expanded(t, d, remaining, st).0, scope),
    decreases remaining, t,
{
    broadcast use vstd::seq_lib::lemma_seq_concat_contains_all_elements;

    let u = names_in(t);
    let st_end = expanded(t, d, remaining, st).1;
    match t {
        Term::Call { callee, args } => {
            if callee == d.name && remaining > 0 {
                let k = zip_len(d.params.len(), args.len());
                let (env, bs, s1) = bind_fresh(d.params, args, k, st);
                lemma_bind_fresh(d.params, args, k, st);
                lemma_bind_fresh_known(d.params, args, k, st, names_in(d.body));
                let (activated, s2) = renamed(d.body, env, s1);
                lemma_renamed_names(d.body, env, s1);
                lemma_all_used_more(names_in(d.body), st.used, s2.used);
                lemma_expanded_grows(activated, d, (remaining - 1) as nat, s2);
                lemma_within_concat(seq![callee], names_in_all(args), u);
                lemma_all_used_fewer(u, names_in_all(args), st.used);
                lemma_all_used_each(args, st.used);
                lemma_unshadowed_each(args, scope);
                assert forall|i: int| 0 <= i < bs.len() implies unshadowed(
                    #[trigger] bs[i].1,
                    scope + bound_names(bs.take(i)),
                ) by {
                    let more = bound_names(bs.take(i));
                    lemma_bound_names_index(bs.take(i));
                    assert forall|n: Seq<char>| #[trigger] more.contains(n) implies !names_in(args[i]).contains(n) by {
                        let j = choose|j: int| 0 <= j < more.len() && more[j] == n;
                        assert(more[j] == bs.take(i)[j].0);
                        assert(bs.take(i)[j] == bs[j]);
                    }
                    lemma_unshadowed_extend(args[i], scope, more);
                }
                assert forall|i: int| 0 <= i < bs.len() implies !scope.contains(#[trigger] bs[i].0) by {
                    assert(!st.used.contains(bs[i].0));
                }
                lemma_fresh_names_unshadowed(bs, scope, bs.len() as int);
                assert(bs.take(bs.len() as int) =~= bs);
                let inner = scope + bound_names(bs);
                lemma_bound_names_index(bs);
                assert forall|n: Seq<char>| #[trigger] inner.contains(n) implies (s1.used.contains(n) || !s2.used.contains(
                    n,
                )) && (s2.used.contains(n) || !st_end.used.contains(n)) by {
                    if bound_names(bs).contains(n) {
                        let j = choose|j: int| 0 <= j < bound_names(bs).len() && bound_names(bs)[j] == n;
                        assert(bound_names(bs)[j] == bs[j].0);
                    } else {
                        assert(scope.contains(n));
                    }
                }
                lemma_renamed_unshadowed(d.body, env, s1, inner);
                lemma_expanded_unshadowed(activated, d, (remaining - 1) as nat, s2, inner);
            }
        },
        Term::If { condition, then_branch, else_branch } => {
            let c0 = names_in(*condition);
            let a0 = names_in(*then_branch);
            let b0 = names_in(*else_branch);
            lemma_within_concat(c0 + a0, b0, u);
            lemma_within_concat(c0, a0, u);
            lemma_all_used_fewer(u, a0, st.used);
            lemma_all_used_fewer(u, b0, st.used);
            let (a, s1) = expanded(*then_branch, d, remaining, st);
            lemma_expanded_grows(*then_branch, d, remaining, st);
            lemma_expanded_grows(*else_branch, d, remaining, s1);
            lemma_all_used_more(b0, st.used, s1.used);
            lemma_all_used_more(names_in(d.body), st.used, s1.used);
            lemma_avoids_narrower(scope, st.used, st_end.used, st.used, s1.used);
            lemma_avoids_narrower(scope, st.used, st_end.used, s1.used, st_end.used);
            lemma_expanded_unshadowed(*then_branch, d, remaining, st, scope);
            lemma_expanded_unshadowed(*else_branch, d, remaining, s1, scope);
        },
        Term::Let { bindings, body } => {
            lemma_within_concat(names_in_bindings(bindings), names_in(*body), u);
            lemma_all_used_fewer(u, names_in(*body), st.used);
            let inner = scope + bound_names(bindings);
            lemma_bound_names_index(bindings);
            assert forall|n: Seq<char>| #[trigger] inner.contains(n) implies st.used.contains(n) || !st_end.used.contains(
                n,
            ) by {
                if bound_names(bindings).contains(n) {
                    let j = choose|j: int| 0 <= j < bound_names(bindings).len() && bound_names(bindings)[j] == n;
                    assert(bindings[j].0 == n);
                    lemma_names_in_bindings_parts(bindings, n);
                    assert(u.contains(n));
                } else {
                    assert(scope.contains(n));
                }
            }
            lemma_expanded_unshadowed(*body, d, remaining, st, inner);
        },
        _ => {},
    }
}


/// Unrolling a closed scalar tail recurrence never changes what its body
/// computes: each iteration's exit test is kept, and each next state is
/// bound once before the body runs again.
pub proof fn lemma_unrolled_keeps_value(
    defs: Seq<DefTerm>,
    d: DefTerm,
    factor: nat,
    st: FreshState,
    e: Map<Seq<char>, Value>,
    fuel: nat,
)
    requires
        find_def(defs, d.name) == Some(d),
        parallel_safe(d.body),
        st.used.finite(),
        all_used(names_in(d.body), st.used),
        evaluated(defs, d.body, e, fuel) is Some,
    ensures
        evaluated(defs, unrolled(d, factor, st).0, e, fuel) == evaluated(defs, d.body, e, fuel),
{
    let r: nat = if factor == 0 { 0 } else { (factor - 1) as nat };
    lemma_expanded_keeps_value(defs, d, d.body, r, st, e, fuel);
}

/// Unrolling every body keeps each definition's name and parameters, keeps
/// what each body computes with the unchanged definitions, its literals in
/// range and its scopes unshadowed; the supply only grows.
proof fn lemma_unroll_defs_facts(defs: Seq<DefTerm>, ds: Seq<DefTerm>, factor: nat, st: FreshState)
    requires
        st.used.finite(),
        all_used(definitions_names(ds), st.used),
        well_scoped(ds),
        forall|i: int| 0 <= i < ds.len() ==> parallel_safe(#[trigger] ds[i].body),
        forall|i: int| 0 <= i < ds.len() ==> find_def(defs, (#[trigger] ds[i]).name) == Some(ds[i]),
    ensures
        unroll_defs(ds, factor, st).1.used.finite(),
        st.used.subset_of(unroll_defs(ds, factor, st).1.used),
        unroll_defs(ds, factor, st).0.len() == ds.len(),
        forall|i: int|
            0 <= i < ds.len() ==> (#[trigger] unroll_defs(ds, factor, st).0[i]).name == ds[i].name && unroll_defs(
                ds,
                factor,
                st,
            ).0[i].params == ds[i].params,
        well_scoped(unroll_defs(ds, factor, st).0),
        forall|i: int, env: Map<Seq<char>, Value>, fuel: nat|
            0 <= i < ds.len() && evaluated(defs, ds[i].body, env, fuel) is Some ==> #[trigger] evaluated(
                defs,
                unroll_defs(ds, factor, st).0[i].body,
                env,
                fuel,
            ) == evaluated(defs, ds[i].body, env, fuel),
    decreases ds.len(),
{
    if ds.len() > 0 {
        let fr = ds.drop_last();
        let d = ds.last();
        let last = ds.len() - 1;
        let whole = definitions_names(ds);
        assert(whole == definitions_names(fr) + seq![d.name] + d.params + names_in(d.body));
        lemma_within_concat(definitions_names(fr) + seq![d.name] + d.params, names_in(d.body), whole);
        lemma_within_concat(definitions_names(fr) + seq![d.name], d.params, whole);
        lemma_within_concat(definitions_names(fr), seq![d.name], whole);
        lemma_all_used_fewer(whole, definitions_names(fr), st.used);
        lemma_all_used_fewer(whole, names_in(d.body), st.used);
        assert(ds[last] == d);
        assert forall|i: int| 0 <= i < fr.len() implies literals_fit(#[trigger] fr[i].body) && unshadowed(
            fr[i].body,
            Seq::empty(),
        ) && parallel_safe(fr[i].body) && find_def(defs, fr[i].name) == Some(fr[i]) by {
            assert(fr[i] == ds[i]);
        }
        lemma_unroll_defs_facts(defs, fr, factor, st);
        let (front, s1) = unroll_defs(fr, factor, st);
        lemma_all_used_more(names_in(d.body), st.used, s1.used);
        let (b, s2) = unrolled(d, factor, s1);
        let r: nat = if factor == 0 { 0 } else { (factor - 1) as nat };
        lemma_expanded_grows(d.body, d, r, s1);
        lemma_expanded_fits(d.body, d, r, s1);
        lemma_expanded_unshadowed(d.body, d, r, s1, Seq::empty());
        let out = unroll_defs(ds, factor, st).0;
        assert(out == front.push(with_body(d, b)));
        assert forall|i: int| 0 <= i < ds.len() implies (#[trigger] out[i]).name == ds[i].name && out[i].params
            == ds[i].params by {
            if i < last {
                assert(out[i] == front[i]);
                assert(fr[i] == ds[i]);
            }
        }
        assert forall|i: int| 0 <= i < out.len() implies literals_fit(#[trigger] out[i].body) && unshadowed(
            out[i].body,
            Seq::empty(),
        ) by {
            if i < last {
                assert(out[i] == front[i]);
            }
        }
        assert forall|i: int, env: Map<Seq<char>, Value>, fuel: nat|
            0 <= i < ds.len() && evaluated(defs, ds[i].body, env, fuel) is Some implies #[trigger] evaluated(
                defs,
                out[i].body,
                env,
                fuel,
            ) == evaluated(defs, ds[i].body, env, fuel) by {
            if i < last {
                assert(out[i] == front[i]);
                assert(fr[i] == ds[i]);
                assert(evaluated(defs, front[i].body, env, fuel) == evaluated(defs, fr[i].body, env, fuel));
            } else {
                lemma_unrolled_keeps_value(defs, d, factor, s1, env, fuel);
            }
        }
    }
}

/// With distinct names every definition is the one its name finds.
pub(crate) proof fn lemma_distinct_find_def(defs: Seq<DefTerm>)
    requires
        distinct_names(defs),
    ensures
        forall|i: int| 0 <= i < defs.len() ==> find_def(defs, (#[trigger] defs[i]).name) == Some(defs[i]),
{
    assert forall|i: int| 0 <= i < defs.len() implies find_def(defs, (#[trigger] defs[i]).name) == Some(defs[i]) by {
        let name = defs[i].name;
        lemma_find_def_index(defs, name);
        let k = choose|k: int|
            0 <= k < defs.len() && defs[k].name == name && (forall|j: int| k < j < defs.len() ==> defs[j].name != name)
                && find_def(defs, name) == Some(defs[k]);
        if k < i {
            assert(defs[k].name != defs[i].name);
        }
        if i < k {
            assert(defs[i].name != defs[k].name);
        }
    }
}


// ---------------------------------------------------------------------------
// Inlining keeps `let`s parallel-safe
// ---------------------------------------------------------------------------

/// Bindings whose names are fresh and whose values are parallel-safe and
/// mention only names in use are parallel-safe.
proof fn lemma_parallel_bindings_from(bs: Seq<(Seq<char>, Term)>, used: Set<Seq<char>>)
    requires
        forall|i: int| 0 <= i < bs.len() ==> parallel_safe(#[trigger] bs[i].1),
        forall|i: int| 0 <= i < bs.len() ==> all_used(names_in(#[trigger] bs[i].1), used),
        forall|i: int| 0 <= i < bs.len() ==> !used.contains(#[trigger] bs[i].0),
    ensures
        parallel_safe_bindings(bs),
    decreases bs.len(),
{
    if bs.len() > 0 {
        let fr = bs.drop_last();
        assert forall|i: int| 0 <= i < fr.len() implies parallel_safe(#[trigger] fr[i].1) && all_used(
            names_in(fr[i].1),
            used,
        ) && !used.contains(fr[i].0) by {
            assert(fr[i] == bs[i]);
        }
        lemma_parallel_bindings_from(fr, used);
        let last = bs.len() - 1;
        assert(bs.last() == bs[last]);
        lemma_bound_names_index(fr);
        assert forall|n: Seq<char>| #[trigger] bound_names(fr).contains(n) implies !names_in(bs.last().1).contains(n) by {
            let j = choose|j: int| 0 <= j < bound_names(fr).len() && bound_names(fr)[j] == n;
            assert(bound_names(fr)[j] == fr[j].0);
            assert(fr[j] == bs[j]);
        }
    }
}

/// What renaming produces has every `let` parallel-safe: its names are all
/// fresh, taken after its values were renamed.
proof fn lemma_renamed_parallel_safe(t: Term, ren: Renaming, st: FreshState)
    requires
        st.used.finite(),
        known(names_in(t), ren, st.used),
    ensures
        parallel_safe(renamed(t, ren, st).0),
    decreases t, 1nat,
{
    let u = names_in(t);
    match t {
        Term::Primitive { op, args } => lemma_renamed_all_parallel_safe(args, ren, st),
        Term::Call { callee, args } => {
            lemma_within_concat(seq![callee], names_in_all(args), u);
            lemma_known_fewer(u, names_in_all(args), ren, st.used);
            lemma_renamed_all_parallel_safe(args, ren, st);
        },
        Term::If { condition, then_branch, else_branch } => {
            let c0 = names_in(*condition);
            let a0 = names_in(*then_branch);
            let b0 = names_in(*else_branch);
            lemma_within_concat(c0 + a0, b0, u);
            lemma_within_concat(c0, a0, u);
            lemma_known_fewer(u, c0, ren, st.used);
            lemma_known_fewer(u, a0, ren, st.used);
            lemma_known_fewer(u, b0, ren, st.used);
            let (c, s1) = renamed(*condition, ren, st);
            lemma_renamed_names(*condition, ren, st);
            lemma_renamed_parallel_safe(*condition, ren, st);
            let (a, s2) = renamed(*then_branch, ren, s1);
            lemma_known_more_used(a0, ren, st.used, s1.used);
            lemma_renamed_names(*then_branch, ren, s1);
            lemma_renamed_parallel_safe(*then_branch, ren, s1);
            lemma_known_more_used(b0, ren, st.used, s2.used);
            lemma_renamed_parallel_safe(*else_branch, ren, s2);
        },
        Term::Let { .. } => lemma_renamed_let_parallel_safe(t, ren, st),
        Term::Cons(h, tl) => {
            lemma_within_concat(names_in(*h), names_in(*tl), u);
            lemma_known_fewer(u, names_in(*h), ren, st.used);
            lemma_known_fewer(u, names_in(*tl), ren, st.used);
            let (x, s1) = renamed(*h, ren, st);
            lemma_renamed_names(*h, ren, st);
            lemma_renamed_parallel_safe(*h, ren, st);
            lemma_known_more_used(names_in(*tl), ren, st.used, s1.used);
            lemma_renamed_parallel_safe(*tl, ren, s1);
        },
        Term::Car(v) => lemma_renamed_parallel_safe(*v, ren, st),
        Term::Cdr(v) => lemma_renamed_parallel_safe(*v, ren, st),
        Term::Null(v) => lemma_renamed_parallel_safe(*v, ren, st),
        _ => {},
    }
}

proof fn lemma_renamed_all_parallel_safe(s: Seq<Term>, ren: Renaming, st: FreshState)
    requires
        st.used.finite(),
        known(names_in_all(s), ren, st.used),
    ensures
        parallel_safe_all(renamed_all(s, ren, st).0),
    decreases s, 1nat,
{
    if s.len() > 0 {
        lemma_names_in_all_within(s);
        lemma_known_fewer(names_in_all(s), names_in_all(s.drop_last()), ren, st.used);
        lemma_known_fewer(names_in_all(s), names_in(s.last()), ren, st.used);
        let (front, s1) = renamed_all(s.drop_last(), ren, st);
        lemma_renamed_all_names(s.drop_last(), ren, st);
        lemma_renamed_all_parallel_safe(s.drop_last(), ren, st);
        lemma_known_more_used(names_in(s.last()), ren, st.used, s1.used);
        lemma_renamed_parallel_safe(s.last(), ren, s1);
        let out = renamed_all(s, ren, st).0;
        assert(out.drop_last() =~= front);
    }
}

proof fn lemma_renamed_values_parallel_safe(s: Seq<(Seq<char>, Term)>, ren: Renaming, st: FreshState)
    requires
        st.used.finite(),
        known(names_in_bindings(s), ren, st.used),
    ensures
        forall|i: int|
            0 <= i < s.len() ==> parallel_safe(#[trigger] renamed_values(s, ren, st).0[i].1),
    decreases s, 1nat,
{
    if s.len() > 0 {
        lemma_names_in_bindings_within(s);
        lemma_known_fewer(names_in_bindings(s), names_in_bindings(s.drop_last()), ren, st.used);
        lemma_known_fewer(names_in_bindings(s), names_in(s.last().1), ren, st.used);
        let (front, s1) = renamed_values(s.drop_last(), ren, st);
        lemma_renamed_values_names(s.drop_last(), ren, st);
        lemma_renamed_values_parallel_safe(s.drop_last(), ren, st);
        lemma_known_more_used(names_in(s.last().1), ren, st.used, s1.used);
        lemma_renamed_parallel_safe(s.last().1, ren, s1);
        let vals = renamed_values(s, ren, st).0;
        assert forall|i: int| 0 <= i < s.len() implies parallel_safe(#[trigger] vals[i].1) by {
            if i < s.len() - 1 {
                assert(vals[i] == front[i]);
            }
        }
    }
}

proof fn lemma_renamed_let_parallel_safe(t: Term, ren: Renaming, st: FreshState)
    requires
        t is Let,
        st.used.finite(),
        known(names_in(t), ren, st.used),
    ensures
        parallel_safe(renamed(t, ren, st).0),
    decreases t, 0nat,
{
    let bindings = t->Let_bindings;
    let body = *t->Let_body;
    let u = names_in(t);
    lemma_within_concat(names_in_bindings(bindings), names_in(body), u);
    lemma_known_fewer(u, names_in_bindings(bindings), ren, st.used);
    let (values, s1) = renamed_values(bindings, ren, st);
    lemma_renamed_values_names(bindings, ren, st);
    lemma_renamed_values_parallel_safe(bindings, ren, st);
    let (bs, ren2, s2) = freshen(values, ren, s1);
    lemma_freshen(values, ren, s1);
    let extra = Seq::new(values.len(), |i: int| (values[i].0, bs[i].0));
    assert(known(names_in(body), ren2, s2.used)) by {
        assert forall|n: Seq<char>| #[trigger] names_in(body).contains(n) implies s2.used.contains(n)
            && s2.used.contains(renamed_to(ren2, n)) by {
            assert(u.contains(n));
            lemma_renamed_to_extended(ren, extra, n);
            if exists|i: int| 0 <= i < extra.len() && extra[i].0 == n {
                let i = choose|i: int|
                    0 <= i < extra.len() && extra[i].0 == n && (forall|j: int| i < j < extra.len() ==> extra[j].0 != n)
                        && renamed_to(ren + extra, n) == extra[i].1;
                assert(s2.used.contains(bs[i].0));
            }
        }
    }
    lemma_renamed_parallel_safe(body, ren2, s2);
    assert forall|i: int| 0 <= i < bs.len() implies parallel_safe(#[trigger] bs[i].1) && all_used(
        names_in(bs[i].1),
        s1.used,
    ) && !s1.used.contains(bs[i].0) by {
        assert(bs[i].1 == values[i].1);
    }
    lemma_parallel_bindings_from(bs, s1.used);
}

/// Every name of `names` is in the class, or not in `used`.
pub open spec fn classed(names: Seq<Seq<char>>, cls: spec_fn(Seq<char>) -> bool, used: Set<Seq<char>>) -> bool {
    forall|m: Seq<char>| #[trigger] names.contains(m) ==> cls(m) || !used.contains(m)
}

/// What renaming call-free code produces mentions only what the renaming
/// gives a name of it, or names taken fresh.
proof fn lemma_renamed_class(t: Term, ren: Renaming, st: FreshState, cls: spec_fn(Seq<char>) -> bool)
    requires
        st.used.finite(),
        !has_call(t),
        known(names_in(t), ren, st.used),
        forall|n: Seq<char>| #[trigger] names_in(t).contains(n) ==> cls(renamed_to(ren, n)),
    ensures
        classed(names_in(renamed(t, ren, st).0), cls, st.used),
    decreases t, 1nat,
{
    broadcast use vstd::seq_lib::lemma_seq_concat_contains_all_elements;

    let u = names_in(t);
    match t {
        Term::Var(n) => {
            assert(u[0] == n);
            assert(u.contains(n));
            let r = renamed_to(ren, n);
            assert(names_in(renamed(t, ren, st).0) =~= seq![r]);
            assert forall|m: Seq<char>| #[trigger] seq![r].contains(m) implies cls(m) by {
                let j = choose|j: int| 0 <= j < seq![r].len() && seq![r][j] == m;
            }
            assert(classed(names_in(renamed(t, ren, st).0), cls, st.used));
        },
        Term::Primitive { op, args } => lemma_renamed_all_class(args, ren, st, cls),
        Term::If { condition, then_branch, else_branch } => {
            let c0 = names_in(*condition);
            let a0 = names_in(*then_branch);
            let b0 = names_in(*else_branch);
            lemma_within_concat(c0 + a0, b0, u);
            lemma_within_concat(c0, a0, u);
            lemma_known_fewer(u, c0, ren, st.used);
            lemma_known_fewer(u, a0, ren, st.used);
            lemma_known_fewer(u, b0, ren, st.used);
            let (c, s1) = renamed(*condition, ren, st);
            lemma_renamed_names(*condition, ren, st);
            lemma_renamed_class(*condition, ren, st, cls);
            let (a, s2) = renamed(*then_branch, ren, s1);
            lemma_known_more_used(a0, ren, st.used, s1.used);
            lemma_renamed_names(*then_branch, ren, s1);
            lemma_renamed_class(*then_branch, ren, s1, cls);
            lemma_known_more_used(b0, ren, st.used, s2.used);
            lemma_renamed_class(*else_branch, ren, s2, cls);
        },
        Term::Let { .. } => lemma_renamed_let_class(t, ren, st, cls),
        Term::Cons(h, tl) => {
            lemma_within_concat(names_in(*h), names_in(*tl), u);
            lemma_known_fewer(u, names_in(*h), ren, st.used);
            lemma_known_fewer(u, names_in(*tl), ren, st.used);
            let (x, s1) = renamed(*h, ren, st);
            lemma_renamed_names(*h, ren, st);
            lemma_renamed_class(*h, ren, st, cls);
            lemma_known_more_used(names_in(*tl), ren, st.used, s1.used);
            lemma_renamed_class(*tl, ren, s1, cls);
        },
        Term::Car(v) => lemma_renamed_class(*v, ren, st, cls),
        Term::Cdr(v) => lemma_renamed_class(*v, ren, st, cls),
        Term::Null(v) => lemma_renamed_class(*v, ren, st, cls),
        _ => {},
    }
}

proof fn lemma_renamed_all_class(s: Seq<Term>, ren: Renaming, st: FreshState, cls: spec_fn(Seq<char>) -> bool)
    requires
        st.used.finite(),
        !has_call_any(s),
        known(names_in_all(s), ren, st.used),
        forall|n: Seq<char>| #[trigger] names_in_all(s).contains(n) ==> cls(renamed_to(ren, n)),
    ensures
        classed(names_in_all(renamed_all(s, ren, st).0), cls, st.used),
    decreases s, 1nat,
{
    broadcast use vstd::seq_lib::lemma_seq_concat_contains_all_elements;

    if s.len() > 0 {
        lemma_names_in_all_within(s);
        lemma_known_fewer(names_in_all(s), names_in_all(s.drop_last()), ren, st.used);
        lemma_known_fewer(names_in_all(s), names_in(s.last()), ren, st.used);
        let (front, s1) = renamed_all(s.drop_last(), ren, st);
        lemma_renamed_all_names(s.drop_last(), ren, st);
        lemma_renamed_all_class(s.drop_last(), ren, st, cls);
        lemma_known_more_used(names_in(s.last()), ren, st.used, s1.used);
        lemma_renamed_class(s.last(), ren, s1, cls);
        let (x, s2) = renamed(s.last(), ren, s1);
        let out = renamed_all(s, ren, st).0;
        assert(out.drop_last() =~= front);
        assert(out.last() == x);
        assert(names_in_all(out) == names_in_all(front) + names_in(x));
    }
}

proof fn lemma_renamed_values_class(
    s: Seq<(Seq<char>, Term)>,
    ren: Renaming,
    st: FreshState,
    cls: spec_fn(Seq<char>) -> bool,
)
    requires
        st.used.finite(),
        !has_call_in_bindings(s),
        known(names_in_bindings(s), ren, st.used),
        forall|n: Seq<char>| #[trigger] names_in_bindings(s).contains(n) ==> cls(renamed_to(ren, n)),
    ensures
        forall|i: int| 0 <= i < s.len() ==> classed(names_in(#[trigger] renamed_values(s, ren, st).0[i].1), cls, st.used),
    decreases s, 1nat,
{
    broadcast use vstd::seq_lib::lemma_seq_concat_contains_all_elements;

    if s.len() > 0 {
        lemma_names_in_bindings_within(s);
        lemma_known_fewer(names_in_bindings(s), names_in_bindings(s.drop_last()), ren, st.used);
        lemma_known_fewer(names_in_bindings(s), names_in(s.last().1), ren, st.used);
        let (front, s1) = renamed_values(s.drop_last(), ren, st);
        lemma_renamed_values_names(s.drop_last(), ren, st);
        lemma_renamed_values_class(s.drop_last(), ren, st, cls);
        lemma_known_more_used(names_in(s.last().1), ren, st.used, s1.used);
        lemma_renamed_class(s.last().1, ren, s1, cls);
        let (x, s2) = renamed(s.last().1, ren, s1);
        let vals = renamed_values(s, ren, st).0;
        assert(vals[s.len() - 1] == (s.last().0, x));
        assert forall|i: int| 0 <= i < s.len() implies classed(names_in(#[trigger] vals[i].1), cls, st.used) by {
            if i < s.len() - 1 {
                assert(vals[i] == front[i]);
            }
        }
    }
}

proof fn lemma_renamed_let_class(t: Term, ren: Renaming, st: FreshState, cls: spec_fn(Seq<char>) -> bool)
    requires
        t is Let,
        st.used.finite(),
        !has_call(t),
        known(names_in(t), ren, st.used),
        forall|n: Seq<char>| #[trigger] names_in(t).contains(n) ==> cls(renamed_to(ren, n)),
    ensures
        classed(names_in(renamed(t, ren, st).0), cls, st.used),
    decreases t, 0nat,
{
    broadcast use vstd::seq_lib::lemma_seq_concat_contains_all_elements;

    let bindings = t->Let_bindings;
    let body = *t->Let_body;
    let u = names_in(t);
    lemma_within_concat(names_in_bindings(bindings), names_in(body), u);
    lemma_known_fewer(u, names_in_bindings(bindings), ren, st.used);
    let (values, s1) = renamed_values(bindings, ren, st);
    lemma_renamed_values_names(bindings, ren, st);
    lemma_renamed_values_class(bindings, ren, st, cls);
    let (bs, ren2, s2) = freshen(values, ren, s1);
    lemma_freshen(values, ren, s1);
    let extra = Seq::new(values.len(), |i: int| (values[i].0, bs[i].0));
    let cls2 = |m: Seq<char>| cls(m) || !st.used.contains(m);
    assert forall|n: Seq<char>| #[trigger] names_in(body).contains(n) implies s2.used.contains(n) && s2.used.contains(
        renamed_to(ren2, n),
    ) && cls2(renamed_to(ren2, n)) by {
        assert(u.contains(n));
        lemma_renamed_to_extended(ren, extra, n);
        if exists|i: int| 0 <= i < extra.len() && extra[i].0 == n {
            let i = choose|i: int|
                0 <= i < extra.len() && extra[i].0 == n && (forall|j: int| i < j < extra.len() ==> extra[j].0 != n)
                    && renamed_to(ren + extra, n) == extra[i].1;
            assert(s2.used.contains(bs[i].0));
            assert(!s1.used.contains(bs[i].0));
        }
    }
    lemma_renamed_class(body, ren2, s2, cls2);
    let (b, s3) = renamed(body, ren2, s2);
    assert(names_in(renamed(t, ren, st).0) == names_in_bindings(bs) + names_in(b));
    assert forall|m: Seq<char>| #[trigger] (names_in_bindings(bs) + names_in(b)).contains(m) implies cls(m) || !st.used.contains(
        m,
    ) by {
        if names_in_bindings(bs).contains(m) {
            lemma_names_in_bindings_parts(bs, m);
            if exists|i: int| 0 <= i < bs.len() && bs[i].0 == m {
                let i = choose|i: int| 0 <= i < bs.len() && bs[i].0 == m;
                assert(!s1.used.contains(bs[i].0));
            } else {
                let i = choose|i: int| 0 <= i < bs.len() && names_in(bs[i].1).contains(m);
                assert(bs[i].1 == values[i].1);
                assert(names_in(values[i].1).contains(m));
            }
        } else {
            assert(cls2(m) || !s2.used.contains(m));
        }
    }
    assert(classed(names_in(renamed(t, ren, st).0), cls, st.used));
}

/// The names of one of several terms are among the names of all of them.
proof fn lemma_names_each(s: Seq<Term>)
    ensures
        forall|i: int, n: Seq<char>|
            0 <= i < s.len() && #[trigger] names_in(s[i]).contains(n) ==> names_in_all(s).contains(n),
{
    lemma_all_used_each(s, names_in_all(s).to_set());
    assert forall|i: int, n: Seq<char>|
        0 <= i < s.len() && #[trigger] names_in(s[i]).contains(n) implies names_in_all(s).contains(n) by {
        assert(all_used(names_in(s[i]), names_in_all(s).to_set()));
        assert(names_in_all(s).to_set().contains(n));
    }
}

/// A helper's body in place of a call is parallel-safe, and mentions only
/// names of the arguments, names the helper mentions beyond its parameters,
/// or fresh names.
proof fn lemma_instantiated_shape(h: DefTerm, args: Seq<Term>, st: FreshState)
    requires
        st.used.finite(),
        all_used(names_in(h.body), st.used),
        forall|i: int| 0 <= i < args.len() ==> all_used(names_in(#[trigger] args[i]), st.used),
        h.params.len() == args.len(),
        !has_call(h.body),
    ensures
        (forall|i: int| 0 <= i < args.len() ==> parallel_safe(#[trigger] args[i])) ==> parallel_safe(
            instantiated(h, args, st).0,
        ),
        classed(
            names_in(instantiated(h, args, st).0),
            |m: Seq<char>| names_in_all(args).contains(m) || (names_in(h.body).contains(m) && !h.params.contains(m)),
            st.used,
        ),
{
    broadcast use vstd::seq_lib::lemma_seq_concat_contains_all_elements;

    let body = h.body;
    let empty: Renaming = Seq::empty();
    let cls = |m: Seq<char>| names_in_all(args).contains(m) || (names_in(body).contains(m) && !h.params.contains(m));
    lemma_names_each(args);
    if all_vars(args) {
        let ren = var_renaming(h.params, args);
        assert(empty + ren =~= ren);
        assert forall|n: Seq<char>| #[trigger] names_in(body).contains(n) implies st.used.contains(n) && st.used.contains(
            renamed_to(ren, n),
        ) && cls(renamed_to(ren, n)) by {
            lemma_renamed_to_extended(empty, ren, n);
            if exists|i: int| 0 <= i < ren.len() && ren[i].0 == n {
                let i = choose|i: int|
                    0 <= i < ren.len() && ren[i].0 == n && (forall|j: int| i < j < ren.len() ==> ren[j].0 != n)
                        && renamed_to(empty + ren, n) == ren[i].1;
                assert(args[i] is Var);
                assert(names_in(args[i])[0] == args[i]->Var_0);
                assert(names_in(args[i]).contains(args[i]->Var_0));
            } else {
                if h.params.contains(n) {
                    let i = choose|i: int| 0 <= i < h.params.len() && h.params[i] == n;
                    assert(ren[i].0 == n);
                }
            }
        }
        lemma_renamed_parallel_safe(body, ren, st);
        lemma_renamed_class(body, ren, st, cls);
    } else {
        let (env, bs, s1) = bind_fresh(h.params, args, h.params.len(), st);
        lemma_bind_fresh(h.params, args, h.params.len(), st);
        assert(empty + env =~= env);
        let cls2 = |m: Seq<char>| cls(m) || !st.used.contains(m);
        assert forall|n: Seq<char>| #[trigger] names_in(body).contains(n) implies s1.used.contains(n) && s1.used.contains(
            renamed_to(env, n),
        ) && cls2(renamed_to(env, n)) by {
            lemma_renamed_to_extended(empty, env, n);
            if exists|i: int| 0 <= i < env.len() && env[i].0 == n {
                let i = choose|i: int|
                    0 <= i < env.len() && env[i].0 == n && (forall|j: int| i < j < env.len() ==> env[j].0 != n)
                        && renamed_to(empty + env, n) == env[i].1;
                assert(env[i] == (h.params[i], bs[i].0));
            } else {
                if h.params.contains(n) {
                    let i = choose|i: int| 0 <= i < h.params.len() && h.params[i] == n;
                    assert(env[i] == (h.params[i], bs[i].0));
                }
            }
        }
        lemma_renamed_parallel_safe(body, env, s1);
        lemma_renamed_class(body, env, s1, cls2);
        let (b, s2) = renamed(body, env, s1);
        if forall|i: int| 0 <= i < args.len() ==> parallel_safe(#[trigger] args[i]) {
            assert forall|i: int| 0 <= i < bs.len() implies parallel_safe(#[trigger] bs[i].1) && all_used(
                names_in(bs[i].1),
                st.used,
            ) && !st.used.contains(bs[i].0) by {
                assert(bs[i].1 == args[i]);
            }
            lemma_parallel_bindings_from(bs, st.used);
        }
        assert forall|m: Seq<char>| #[trigger] names_in_bindings(bs).contains(m) implies cls(m) || !st.used.contains(m) by {
            lemma_names_in_bindings_parts(bs, m);
            if exists|i: int| 0 <= i < bs.len() && bs[i].0 == m {
                let i = choose|i: int| 0 <= i < bs.len() && bs[i].0 == m;
            } else {
                let i = choose|i: int| 0 <= i < bs.len() && names_in(bs[i].1).contains(m);
                assert(bs[i].1 == args[i]);
            }
        }
        if bs.len() > 0 {
            let out = Term::Let { bindings: bs, body: Box::new(b) };
            assert(names_in(out) == names_in_bindings(bs) + names_in(b));
            assert forall|m: Seq<char>| #[trigger] names_in(out).contains(m) implies cls(m) || !st.used.contains(m) by {
                if !names_in_bindings(bs).contains(m) {
                    assert(names_in(b).contains(m));
                    assert(cls2(m) || !s1.used.contains(m));
                }
            }
        } else {
            assert forall|m: Seq<char>| #[trigger] names_in(b).contains(m) implies cls(m) || !st.used.contains(m) by {
                assert(cls2(m) || !s1.used.contains(m));
            }
        }
    }
}

/// A name one of the helpers mentions beyond its parameters.
pub open spec fn helper_extra(helpers: Seq<DefTerm>, m: Seq<char>) -> bool {
    exists|i: int| 0 <= i < helpers.len() && names_in(helpers[i].body).contains(m) && !helpers[i].params.contains(m)
}

/// No `let` in `t` binds a name some helper mentions beyond its parameters.
pub open spec fn binds_no_helper_name(helpers: Seq<DefTerm>, binders: Seq<Seq<char>>) -> bool {
    forall|m: Seq<char>| #[trigger] binders.contains(m) ==> !helper_extra(helpers, m)
}

/// Fewer binders bind no helper name either.
proof fn lemma_binds_no_helper_fewer(helpers: Seq<DefTerm>, a: Seq<Seq<char>>, b: Seq<Seq<char>>)
    requires
        binds_no_helper_name(helpers, b),
        within(a, b),
    ensures
        binds_no_helper_name(helpers, a),
{
    assert forall|m: Seq<char>| #[trigger] a.contains(m) implies !helper_extra(helpers, m) by {
        assert(b.contains(m));
    }
}

/// Both parts of joined binders bind no helper name.
proof fn lemma_binds_no_helper_parts(helpers: Seq<DefTerm>, a: Seq<Seq<char>>, b: Seq<Seq<char>>)
    requires
        binds_no_helper_name(helpers, a + b),
    ensures
        binds_no_helper_name(helpers, a),
        binds_no_helper_name(helpers, b),
{
    lemma_within_concat(a, b, a + b);
    lemma_binds_no_helper_fewer(helpers, a, a + b);
    lemma_binds_no_helper_fewer(helpers, b, a + b);
}

/// What inlining produces mentions only names of `t`, names the helpers
/// mention beyond their parameters, or fresh names; and it keeps every
/// `let` parallel-safe where no `let` of `t` binds such a helper name.
proof fn lemma_inlined_shape(helpers: Seq<DefTerm>, defs: Seq<DefTerm>, t: Term, st: FreshState)
    requires
        st.used.finite(),
        all_used(names_in(t), st.used),
        inlinable(helpers, defs, st.used),
    ensures
        classed(
            names_in(inlined(t, helpers, st).0),
            |m: Seq<char>| names_in(t).contains(m) || helper_extra(helpers, m),
            st.used,
        ),
        parallel_safe(t) && binds_no_helper_name(helpers, binders_of(t)) ==> parallel_safe(inlined(t, helpers, st).0),
    decreases t,
{
    broadcast use vstd::seq_lib::lemma_seq_concat_contains_all_elements;

    let u = names_in(t);
    let out = inlined(t, helpers, st).0;
    lemma_inlined_names(helpers, defs, t, st);
    match t {
        Term::Call { callee, args } => {
            lemma_within_concat(seq![callee], names_in_all(args), u);
            assert(seq![callee][0] == callee);
            lemma_all_used_fewer(u, names_in_all(args), st.used);
            let (a, s1) = inlined_all(args, helpers, st);
            lemma_inlined_all_names(helpers, defs, args, st);
            lemma_inlined_all_shape(helpers, defs, args, st);
            lemma_all_used_each(a, s1.used);
            let mut instantiating = false;
            if let Some(h) = find_def(helpers, callee) {
                if h.params.len() == a.len() {
                    instantiating = true;
                }
            }
            if instantiating {
                let h = find_def(helpers, callee).unwrap();
                lemma_find_def_member(helpers, callee);
                lemma_inlinable_more_used(helpers, defs, st.used, s1.used);
                let i = choose|i: int| 0 <= i < helpers.len() && helpers[i] == h;
                assert(all_used(names_in(helpers[i].body), s1.used) && !has_call(helpers[i].body));
                lemma_instantiated_shape(h, a, s1);
                assert(out == instantiated(h, a, s1).0);
                assert forall|m: Seq<char>| #[trigger] names_in(out).contains(m) implies (u.contains(m) || helper_extra(
                    helpers,
                    m,
                )) || !st.used.contains(m) by {
                    if names_in_all(a).contains(m) {
                    } else if names_in(h.body).contains(m) && !h.params.contains(m) {
                        assert(names_in(helpers[i].body).contains(m) && !helpers[i].params.contains(m));
                    }
                }
                if parallel_safe(t) && binds_no_helper_name(helpers, binders_of(t)) {
                    lemma_parallel_safe_each(a);
                }
            } else {
                assert(out == Term::Call { callee, args: a });
                assert(names_in(out) == seq![callee] + names_in_all(a));
            }
        },
        Term::Primitive { op, args } => {
            lemma_inlined_all_shape(helpers, defs, args, st);
        },
        Term::If { condition, then_branch, else_branch } => {
            let c0 = names_in(*condition);
            let a0 = names_in(*then_branch);
            let b0 = names_in(*else_branch);
            lemma_within_concat(c0 + a0, b0, u);
            lemma_within_concat(c0, a0, u);
            lemma_all_used_fewer(u, c0, st.used);
            lemma_all_used_fewer(u, a0, st.used);
            lemma_all_used_fewer(u, b0, st.used);
            let (c, s1) = inlined(*condition, helpers, st);
            lemma_inlined_names(helpers, defs, *condition, st);
            lemma_inlined_shape(helpers, defs, *condition, st);
            lemma_all_used_more(a0, st.used, s1.used);
            lemma_inlinable_more_used(helpers, defs, st.used, s1.used);
            let (x, s2) = inlined(*then_branch, helpers, s1);
            lemma_inlined_names(helpers, defs, *then_branch, s1);
            lemma_inlined_shape(helpers, defs, *then_branch, s1);
            lemma_all_used_more(b0, st.used, s2.used);
            lemma_inlinable_more_used(helpers, defs, st.used, s2.used);
            lemma_inlined_shape(helpers, defs, *else_branch, s2);
            let (y, s3) = inlined(*else_branch, helpers, s2);
            assert(names_in(out) == names_in(c) + names_in(x) + names_in(y));
            if parallel_safe(t) && binds_no_helper_name(helpers, binders_of(t)) {
                lemma_binds_no_helper_parts(
                    helpers,
                    binders_of(*condition) + binders_of(*then_branch),
                    binders_of(*else_branch),
                );
                lemma_binds_no_helper_parts(helpers, binders_of(*condition), binders_of(*then_branch));
            }
            assert forall|m: Seq<char>| #[trigger] names_in(out).contains(m) implies (u.contains(m) || helper_extra(
                helpers,
                m,
            )) || !st.used.contains(m) by {
                if names_in(c).contains(m) {
                } else if names_in(x).contains(m) {
                    assert(a0.contains(m) || helper_extra(helpers, m) || !s1.used.contains(m));
                } else {
                    assert(names_in(y).contains(m));
                    assert(b0.contains(m) || helper_extra(helpers, m) || !s2.used.contains(m));
                }
            }
        },
        Term::Let { bindings, body } => {
            lemma_within_concat(names_in_bindings(bindings), names_in(*body), u);
            lemma_all_used_fewer(u, names_in_bindings(bindings), st.used);
            lemma_all_used_fewer(u, names_in(*body), st.used);
            let (bs, s1) = inlined_bindings(bindings, helpers, st);
            lemma_inlined_bindings_names(helpers, defs, bindings, st);
            lemma_inlined_bindings_shape(helpers, defs, bindings, st);
            lemma_inlined_bindings_names_kept(helpers, bindings, st);
            lemma_all_used_more(names_in(*body), st.used, s1.used);
            lemma_inlinable_more_used(helpers, defs, st.used, s1.used);
            lemma_inlined_shape(helpers, defs, *body, s1);
            let (b, s2) = inlined(*body, helpers, s1);
            assert(names_in(out) == names_in_bindings(bs) + names_in(b));
            if parallel_safe(t) && binds_no_helper_name(helpers, binders_of(t)) {
                lemma_binds_no_helper_parts(helpers, binders_of_bindings(bindings), binders_of(*body));
            }
            assert forall|m: Seq<char>| #[trigger] names_in(out).contains(m) implies (u.contains(m) || helper_extra(
                helpers,
                m,
            )) || !st.used.contains(m) by {
                if names_in_bindings(bs).contains(m) {
                } else {
                    assert(names_in(b).contains(m));
                    assert(names_in(*body).contains(m) || helper_extra(helpers, m) || !s1.used.contains(m));
                }
            }
        },
        Term::Cons(h, tl) => {
            lemma_within_concat(names_in(*h), names_in(*tl), u);
            lemma_all_used_fewer(u, names_in(*h), st.used);
            lemma_all_used_fewer(u, names_in(*tl), st.used);
            let (x, s1) = inlined(*h, helpers, st);
            lemma_inlined_names(helpers, defs, *h, st);
            lemma_inlined_shape(helpers, defs, *h, st);
            lemma_all_used_more(names_in(*tl), st.used, s1.used);
            lemma_inlinable_more_used(helpers, defs, st.used, s1.used);
            lemma_inlined_shape(helpers, defs, *tl, s1);
            let (y, s2) = inlined(*tl, helpers, s1);
            assert(names_in(out) == names_in(x) + names_in(y));
            if parallel_safe(t) && binds_no_helper_name(helpers, binders_of(t)) {
                lemma_binds_no_helper_parts(helpers, binders_of(*h), binders_of(*tl));
            }
            assert forall|m: Seq<char>| #[trigger] names_in(out).contains(m) implies (u.contains(m) || helper_extra(
                helpers,
                m,
            )) || !st.used.contains(m) by {
                if names_in(y).contains(m) && !names_in(x).contains(m) {
                    assert(names_in(*tl).contains(m) || helper_extra(helpers, m) || !s1.used.contains(m));
                }
            }
        },
        Term::Car(v) => lemma_inlined_shape(helpers, defs, *v, st),
        Term::Cdr(v) => lemma_inlined_shape(helpers, defs, *v, st),
        Term::Null(v) => lemma_inlined_shape(helpers, defs, *v, st),
        _ => {},
    }
}

proof fn lemma_inlined_all_shape(helpers: Seq<DefTerm>, defs: Seq<DefTerm>, s: Seq<Term>, st: FreshState)
    requires
        st.used.finite(),
        all_used(names_in_all(s), st.used),
        inlinable(helpers, defs, st.used),
    ensures
        classed(
            names_in_all(inlined_all(s, helpers, st).0),
            |m: Seq<char>| names_in_all(s).contains(m) || helper_extra(helpers, m),
            st.used,
        ),
        parallel_safe_all(s) && binds_no_helper_name(helpers, binders_of_all(s)) ==> parallel_safe_all(
            inlined_all(s, helpers, st).0,
        ),
    decreases s,
{
    broadcast use vstd::seq_lib::lemma_seq_concat_contains_all_elements;

    if s.len() > 0 {
        lemma_names_in_all_within(s);
        lemma_all_used_fewer(names_in_all(s), names_in_all(s.drop_last()), st.used);
        lemma_all_used_fewer(names_in_all(s), names_in(s.last()), st.used);
        let (front, s1) = inlined_all(s.drop_last(), helpers, st);
        lemma_inlined_all_names(helpers, defs, s.drop_last(), st);
        lemma_inlined_all_shape(helpers, defs, s.drop_last(), st);
        lemma_all_used_more(names_in(s.last()), st.used, s1.used);
        lemma_inlinable_more_used(helpers, defs, st.used, s1.used);
        lemma_inlined_shape(helpers, defs, s.last(), s1);
        let (x, s2) = inlined(s.last(), helpers, s1);
        let out = inlined_all(s, helpers, st).0;
        assert(out.drop_last() =~= front);
        assert(out.last() == x);
        if parallel_safe_all(s) && binds_no_helper_name(helpers, binders_of_all(s)) {
            lemma_binds_no_helper_parts(helpers, binders_of_all(s.drop_last()), binders_of(s.last()));
        }
        assert(names_in_all(out) == names_in_all(front) + names_in(x));
        assert forall|m: Seq<char>| #[trigger] names_in_all(out).contains(m) implies (names_in_all(s).contains(m)
            || helper_extra(helpers, m)) || !st.used.contains(m) by {
            if names_in(x).contains(m) && !names_in_all(front).contains(m) {
                assert(names_in(s.last()).contains(m) || helper_extra(helpers, m) || !s1.used.contains(m));
            }
        }
    }
}

proof fn lemma_inlined_bindings_shape(
    helpers: Seq<DefTerm>,
    defs: Seq<DefTerm>,
    s: Seq<(Seq<char>, Term)>,
    st: FreshState,
)
    requires
        st.used.finite(),
        all_used(names_in_bindings(s), st.used),
        inlinable(helpers, defs, st.used),
    ensures
        classed(
            names_in_bindings(inlined_bindings(s, helpers, st).0),
            |m: Seq<char>| names_in_bindings(s).contains(m) || helper_extra(helpers, m),
            st.used,
        ),
        parallel_safe_bindings(s) && binds_no_helper_name(helpers, binders_of_bindings(s)) ==> parallel_safe_bindings(
            inlined_bindings(s, helpers, st).0,
        ),
    decreases s,
{
    broadcast use vstd::seq_lib::lemma_seq_concat_contains_all_elements;

    if s.len() > 0 {
        lemma_names_in_bindings_within(s);
        lemma_all_used_fewer(names_in_bindings(s), names_in_bindings(s.drop_last()), st.used);
        lemma_all_used_fewer(names_in_bindings(s), names_in(s.last().1), st.used);
        let (front, s1) = inlined_bindings(s.drop_last(), helpers, st);
        lemma_inlined_bindings_names(helpers, defs, s.drop_last(), st);
        lemma_inlined_bindings_shape(helpers, defs, s.drop_last(), st);
        lemma_inlined_bindings_names_kept(helpers, s.drop_last(), st);
        lemma_all_used_more(names_in(s.last().1), st.used, s1.used);
        lemma_inlinable_more_used(helpers, defs, st.used, s1.used);
        lemma_inlined_shape(helpers, defs, s.last().1, s1);
        let (x, s2) = inlined(s.last().1, helpers, s1);
        let out = inlined_bindings(s, helpers, st).0;
        assert(out.drop_last() =~= front);
        assert(out.last() == (s.last().0, x));
        assert(names_in_bindings(out) == names_in_bindings(front) + seq![s.last().0] + names_in(x));
        assert(names_in_bindings(s) == names_in_bindings(s.drop_last()) + seq![s.last().0] + names_in(s.last().1));
        assert forall|m: Seq<char>| #[trigger] names_in_bindings(out).contains(m) implies (names_in_bindings(s).contains(
            m,
        ) || helper_extra(helpers, m)) || !st.used.contains(m) by {
            if names_in(x).contains(m) && !names_in_bindings(front).contains(m) && !seq![s.last().0].contains(m) {
                assert(names_in(s.last().1).contains(m) || helper_extra(helpers, m) || !s1.used.contains(m));
            }
        }
        if parallel_safe_bindings(s) && binds_no_helper_name(helpers, binders_of_bindings(s)) {
            let fr = s.drop_last();
            assert(binders_of_bindings(s) == binders_of_bindings(fr) + seq![s.last().0] + binders_of(s.last().1));
            lemma_binds_no_helper_parts(helpers, binders_of_bindings(fr) + seq![s.last().0], binders_of(s.last().1));
            lemma_binds_no_helper_parts(helpers, binders_of_bindings(fr), seq![s.last().0]);
            lemma_binders_cover_names(fr);
            assert forall|n: Seq<char>| #[trigger] bound_names(front).contains(n) implies !names_in(x).contains(n) by {
                assert(bound_names(fr).contains(n));
                assert(binders_of_bindings(fr).contains(n));
                assert(binders_of_bindings(s).contains(n));
                assert(!helper_extra(helpers, n));
                assert(!names_in(s.last().1).contains(n));
                lemma_bound_names_index(fr);
                let j = choose|j: int| 0 <= j < bound_names(fr).len() && bound_names(fr)[j] == n;
                assert(bound_names(fr)[j] == fr[j].0);
                lemma_names_in_bindings_parts(fr, n);
                assert(names_in_bindings(fr).contains(n));
                assert(st.used.contains(n));
                if names_in(x).contains(n) {
                    assert(names_in(s.last().1).contains(n) || helper_extra(helpers, n) || !s1.used.contains(n));
                }
            }
        }
    }
}

/// Inlining leaves call-free code exactly as it was.
proof fn lemma_inlined_call_free(helpers: Seq<DefTerm>, t: Term, st: FreshState)
    requires
        !has_call(t),
    ensures
        inlined(t, helpers, st) == (t, st),
    decreases t,
{
    match t {
        Term::Primitive { op, args } => lemma_inlined_all_call_free(helpers, args, st),
        Term::If { condition, then_branch, else_branch } => {
            lemma_inlined_call_free(helpers, *condition, st);
            lemma_inlined_call_free(helpers, *then_branch, st);
            lemma_inlined_call_free(helpers, *else_branch, st);
        },
        Term::Let { bindings, body } => {
            lemma_inlined_bindings_call_free(helpers, bindings, st);
            lemma_inlined_call_free(helpers, *body, st);
        },
        Term::Cons(h, tl) => {
            lemma_inlined_call_free(helpers, *h, st);
            lemma_inlined_call_free(helpers, *tl, st);
        },
        Term::Car(v) => lemma_inlined_call_free(helpers, *v, st),
        Term::Cdr(v) => lemma_inlined_call_free(helpers, *v, st),
        Term::Null(v) => lemma_inlined_call_free(helpers, *v, st),
        _ => {},
    }
}

proof fn lemma_inlined_all_call_free(helpers: Seq<DefTerm>, s: Seq<Term>, st: FreshState)
    requires
        !has_call_any(s),
    ensures
        inlined_all(s, helpers, st) == (s, st),
    decreases s,
{
    if s.len() > 0 {
        lemma_inlined_all_call_free(helpers, s.drop_last(), st);
        lemma_inlined_call_free(helpers, s.last(), st);
        assert(s.drop_last().push(s.last()) =~= s);
    }
}

proof fn lemma_inlined_bindings_call_free(helpers: Seq<DefTerm>, s: Seq<(Seq<char>, Term)>, st: FreshState)
    requires
        !has_call_in_bindings(s),
    ensures
        inlined_bindings(s, helpers, st) == (s, st),
    decreases s,
{
    if s.len() > 0 {
        lemma_inlined_bindings_call_free(helpers, s.drop_last(), st);
        lemma_inlined_call_free(helpers, s.last().1, st);
        assert(s.drop_last().push((s.last().0, s.last().1)) =~= s);
    }
}

}
