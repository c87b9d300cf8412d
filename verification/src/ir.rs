//! The small, normalized functional core consumed by the Bend backend.
use crate::ast;
use crate::ast::AstTerm;
use crate::optimize::{pairs_of, renamed_to, Renaming};
use crate::text::{decimal, push_decimal, push_signed, push_str, signed_decimal, text_is};
use crate::CompileError;
use std::collections::BTreeSet;
use vstd::prelude::*;
use vstd::string::StringExecFns;

verus! {

/// The smallest value of Bend's signed 24-bit integers.
pub const I24_MIN: i64 = -8388608i64;
/// The largest value of Bend's signed 24-bit integers.
pub const I24_MAX: i64 = 8388607i64;

#[derive(Debug, Clone, Copy, PartialEq, Eq, Structural)]
pub enum Primitive {
    Add,
    Sub,
    Mul,
    /// Lazy zero-annihilating multiplication. Unlike ordinary `*`, the
    /// generated Bend checks each operand before reducing the other one.
    Mul0,
    Div,
    Eq,
    Lt,
    Gt,
    Le,
    Ge,
}

#[derive(Debug, PartialEq, Eq)]
pub struct Program {
    pub definitions: Vec<Definition>,
    pub graphs: Vec<GraphDefinition>,
    pub body: Option<Expr>,
}

/// A validated, scheduled static graph. The graph pass has already removed
/// nodes that cannot reach an output and computed a topological order for the
/// remaining non-input nodes.
#[derive(Debug, Clone, PartialEq, Eq)]
pub struct GraphDefinition {
    pub name: String,
    pub nodes: usize,
    pub inputs: Vec<usize>,
    pub outputs: Vec<usize>,
    pub edges: Vec<GraphEdge>,
    pub live_nodes: BTreeSet<usize>,
    pub schedule: Vec<usize>,
}

#[derive(Debug, Clone, Copy, PartialEq, Eq)]
pub struct GraphEdge {
    pub src: usize,
    pub dst: usize,
    pub weight: i64,
}

#[derive(Debug, PartialEq, Eq)]
pub struct Definition {
    pub name: String,
    pub params: Vec<String>,
    pub body: Expr,
}

#[derive(Debug, PartialEq, Eq)]
pub enum Expr {
    Number(i64),
    Bool(bool),
    Var(String),
    Nil,
    Call { callee: String, args: Vec<Expr> },
    Primitive { op: Primitive, args: Vec<Expr> },
    If { condition: Box<Expr>, then_branch: Box<Expr>, else_branch: Box<Expr> },
    Let { bindings: Vec<(String, Expr)>, body: Box<Expr> },
    Cons(Box<Expr>, Box<Expr>),
    Car(Box<Expr>),
    Cdr(Box<Expr>),
    Null(Box<Expr>),
}

/// The mathematical value of an [`Expr`]: names are character sequences and
/// children are sequences, so two terms are equal exactly when they are the
/// same tree.
pub enum Term {
    Number(i64),
    Bool(bool),
    Var(Seq<char>),
    Nil,
    Call { callee: Seq<char>, args: Seq<Term> },
    Primitive { op: Primitive, args: Seq<Term> },
    If { condition: Box<Term>, then_branch: Box<Term>, else_branch: Box<Term> },
    Let { bindings: Seq<(Seq<char>, Term)>, body: Box<Term> },
    Cons(Box<Term>, Box<Term>),
    Car(Box<Term>),
    Cdr(Box<Term>),
    Null(Box<Term>),
}

pub open spec fn term_of(e: Expr) -> Term
    decreases e,
{
    match e {
        Expr::Number(n) => Term::Number(n),
        Expr::Bool(b) => Term::Bool(b),
        Expr::Var(v) => Term::Var(v@),
        Expr::Nil => Term::Nil,
        Expr::Call { callee, args } => Term::Call { callee: callee@, args: terms_of(args@) },
        Expr::Primitive { op, args } => Term::Primitive { op, args: terms_of(args@) },
        Expr::If { condition, then_branch, else_branch } => Term::If {
            condition: Box::new(term_of(*condition)),
            then_branch: Box::new(term_of(*then_branch)),
            else_branch: Box::new(term_of(*else_branch)),
        },
        Expr::Let { bindings, body } => Term::Let {
            bindings: binding_terms_of(bindings@),
            body: Box::new(term_of(*body)),
        },
        Expr::Cons(h, t) => Term::Cons(Box::new(term_of(*h)), Box::new(term_of(*t))),
        Expr::Car(v) => Term::Car(Box::new(term_of(*v))),
        Expr::Cdr(v) => Term::Cdr(Box::new(term_of(*v))),
        Expr::Null(v) => Term::Null(Box::new(term_of(*v))),
    }
}

pub open spec fn terms_of(s: Seq<Expr>) -> Seq<Term>
    decreases s,
{
    if s.len() == 0 {
        Seq::empty()
    } else {
        terms_of(s.drop_last()).push(term_of(s.last()))
    }
}

pub open spec fn binding_terms_of(s: Seq<(String, Expr)>) -> Seq<(Seq<char>, Term)>
    decreases s,
{
    if s.len() == 0 {
        Seq::empty()
    } else {
        binding_terms_of(s.drop_last()).push((s.last().0@, term_of(s.last().1)))
    }
}

impl View for Expr {
    type V = Term;

    open spec fn view(&self) -> Term {
        term_of(*self)
    }
}

/// A copy of `e` with the same tree.
pub fn copy_expr(e: &Expr) -> (r: Expr)
    ensures
        r@ == e@,
    decreases e,
{
    match e {
        Expr::Number(n) => Expr::Number(*n),
        Expr::Bool(b) => Expr::Bool(*b),
        Expr::Var(v) => Expr::Var(v.clone()),
        Expr::Nil => Expr::Nil,
        Expr::Call { callee, args } => Expr::Call { callee: callee.clone(), args: copy_exprs(args) },
        Expr::Primitive { op, args } => Expr::Primitive { op: *op, args: copy_exprs(args) },
        Expr::If { condition, then_branch, else_branch } => Expr::If {
            condition: Box::new(copy_expr(condition)),
            then_branch: Box::new(copy_expr(then_branch)),
            else_branch: Box::new(copy_expr(else_branch)),
        },
        Expr::Let { bindings, body } => Expr::Let {
            bindings: copy_bindings(bindings),
            body: Box::new(copy_expr(body)),
        },
        Expr::Cons(h, t) => Expr::Cons(Box::new(copy_expr(h)), Box::new(copy_expr(t))),
        Expr::Car(v) => Expr::Car(Box::new(copy_expr(v))),
        Expr::Cdr(v) => Expr::Cdr(Box::new(copy_expr(v))),
        Expr::Null(v) => Expr::Null(Box::new(copy_expr(v))),
    }
}

/// Copies of every expression in `args`, in order.
pub fn copy_exprs(args: &Vec<Expr>) -> (r: Vec<Expr>)
    ensures
        terms_of(r@) == terms_of(args@),
    decreases args, 0nat,
{
    let mut out: Vec<Expr> = Vec::new();
    let mut i: usize = 0;
    while i < args.len()
        invariant
            i <= args.len(),
            terms_of(out@) == terms_of(args@.take(i as int)),
        decreases args.len() - i,
    {
        proof { assert(decreases_to!(args => args@[i as int])); }
        let c = copy_expr(&args[i]);
        proof {
            assert(args@.take(i + 1).drop_last() =~= args@.take(i as int));
            assert(out@.push(c).drop_last() =~= out@);
        }
        out.push(c);
        i = i + 1;
    }
    proof { assert(args@.take(args.len() as int) =~= args@); }
    out
}

/// Copies of every binding in `bindings`, in order.
pub fn copy_bindings(bindings: &Vec<(String, Expr)>) -> (r: Vec<(String, Expr)>)
    ensures
        binding_terms_of(r@) == binding_terms_of(bindings@),
    decreases bindings, 0nat,
{
    let mut out: Vec<(String, Expr)> = Vec::new();
    let mut i: usize = 0;
    while i < bindings.len()
        invariant
            i <= bindings.len(),
            binding_terms_of(out@) == binding_terms_of(bindings@.take(i as int)),
        decreases bindings.len() - i,
    {
        proof { assert(decreases_to!(bindings => bindings@[i as int].1)); }
        let c = (bindings[i].0.clone(), copy_expr(&bindings[i].1));
        proof {
            assert(bindings@.take(i + 1).drop_last() =~= bindings@.take(i as int));
            assert(out@.push(c).drop_last() =~= out@);
        }
        out.push(c);
        i = i + 1;
    }
    proof { assert(bindings@.take(bindings.len() as int) =~= bindings@); }
    out
}

impl Clone for Expr {
    fn clone(&self) -> (r: Self)
        ensures
            r@ == self@,
    {
        copy_expr(self)
    }
}

pub proof fn lemma_terms_of(s: Seq<Expr>)
    ensures
        terms_of(s).len() == s.len(),
        forall|i: int| 0 <= i < s.len() ==> #[trigger] terms_of(s)[i] == term_of(s[i]),
    decreases s.len(),
{
    if s.len() > 0 {
        lemma_terms_of(s.drop_last());
    }
}

pub proof fn lemma_binding_terms_of(s: Seq<(String, Expr)>)
    ensures
        binding_terms_of(s).len() == s.len(),
        forall|i: int| 0 <= i < s.len() ==> #[trigger] binding_terms_of(s)[i] == (s[i].0@, term_of(s[i].1)),
    decreases s.len(),
{
    if s.len() > 0 {
        lemma_binding_terms_of(s.drop_last());
    }
}


/// The mathematical value of a [`Definition`].
pub struct DefTerm {
    pub name: Seq<char>,
    pub params: Seq<Seq<char>>,
    pub body: Term,
}

pub open spec fn names_of(s: Seq<String>) -> Seq<Seq<char>> {
    s.map_values(|n: String| n@)
}

impl View for Definition {
    type V = DefTerm;

    open spec fn view(&self) -> DefTerm {
        DefTerm { name: self.name@, params: names_of(self.params@), body: self.body@ }
    }
}

pub open spec fn defs_of(s: Seq<Definition>) -> Seq<DefTerm> {
    s.map_values(|d: Definition| d@)
}

/// A value the compiler knows outright: a number, a boolean, `()`, or a cons
/// chain built from those.
pub open spec fn is_value(t: Term) -> bool
    decreases t,
{
    match t {
        Term::Number(_) | Term::Bool(_) | Term::Nil => true,
        Term::Cons(h, tl) => is_value(*h) && is_value(*tl),
        _ => false,
    }
}

/// A number in Bend's signed 24-bit range.
pub open spec fn in_i24(v: int) -> bool {
    I24_MIN <= v <= I24_MAX
}

/// Rust's truncating integer division.
pub open spec fn quotient(x: int, d: int) -> int {
    if x == 0 {
        0
    } else if x > 0 && d > 0 {
        x / d
    } else if x < 0 && d < 0 {
        (x * -1) / (d * -1)
    } else if x < 0 {
        ((x * -1) / d) * -1
    } else {
        (x / (d * -1)) * -1
    }
}

/// The exact result of a numeric primitive, or `None` where it has none
/// (division by zero, or an operator that is not one of `+ - * /`).
pub open spec fn exact(op: Primitive, left: int, right: int) -> Option<int> {
    match op {
        Primitive::Add => Some(left + right),
        Primitive::Sub => Some(left - right),
        Primitive::Mul => Some(left * right),
        Primitive::Div => if right == 0 { None } else { Some(quotient(left, right)) },
        _ => None,
    }
}

/// The folded value of a numeric primitive: its exact result when that stays
/// in the signed 24-bit range, so a fold never disagrees with the target.
pub open spec fn folded(op: Primitive, left: int, right: int) -> Option<int> {
    match exact(op, left, right) {
        Some(v) => if in_i24(v) { Some(v) } else { None },
        None => None,
    }
}

/// The exact result of `op` on two `i64`s when it stays in the signed 24-bit
/// range; `None` otherwise, and always for comparisons and `mul0`.
pub fn fold_arithmetic(op: Primitive, left: i64, right: i64) -> (r: Option<i64>)
    ensures
        r matches Some(v) ==> folded(op, left as int, right as int) == Some(v as int),
        r is None ==> folded(op, left as int, right as int) is None,
{
    let result = match op {
        Primitive::Add => left.checked_add(right),
        Primitive::Sub => left.checked_sub(right),
        Primitive::Mul => left.checked_mul(right),
        Primitive::Div => if right != 0 { left.checked_div(right) } else { None },
        _ => None,
    };
    match result {
        Some(v) => if I24_MIN <= v && v <= I24_MAX { Some(v) } else { None },
        None => {
            proof {
                if op is Div && right != 0 {
                    let q = quotient(left as int, right as int);
                    assert(q < i64::MIN || q > i64::MAX);
                }
            }
            None
        },
    }
}


/// The number of nodes in a term.
pub open spec fn node_count(t: Term) -> nat
    decreases t,
{
    match t {
        Term::Number(_) | Term::Bool(_) | Term::Var(_) | Term::Nil => 1,
        Term::Call { args, .. } | Term::Primitive { args, .. } => 1 + node_counts(args),
        Term::If { condition, then_branch, else_branch } => 1 + node_count(*condition)
            + node_count(*then_branch) + node_count(*else_branch),
        Term::Let { bindings, body } => 1 + binding_node_counts(bindings) + node_count(*body),
        Term::Cons(h, tl) => 1 + node_count(*h) + node_count(*tl),
        Term::Car(v) | Term::Cdr(v) | Term::Null(v) => 1 + node_count(*v),
    }
}

pub open spec fn node_counts(s: Seq<Term>) -> nat
    decreases s,
{
    if s.len() == 0 {
        0
    } else {
        node_counts(s.drop_last()) + node_count(s.last())
    }
}

pub open spec fn binding_node_counts(s: Seq<(Seq<char>, Term)>) -> nat
    decreases s,
{
    if s.len() == 0 {
        0
    } else {
        binding_node_counts(s.drop_last()) + node_count(s.last().1)
    }
}

pub open spec fn capped(n: nat) -> usize {
    if n <= usize::MAX {
        n as usize
    } else {
        usize::MAX
    }
}

pub fn add_capped(a: usize, b: usize) -> (r: usize)
    ensures
        r == capped((a + b) as nat),
{
    if a <= usize::MAX - b {
        a + b
    } else {
        usize::MAX
    }
}

/// The number of nodes in `e`, or `usize::MAX` when it has more.
#[verifier::loop_isolation(false)]
pub fn count_nodes(e: &Expr) -> (r: usize)
    ensures
        r == capped(node_count(e@)),
    decreases e,
{
    match e {
        Expr::Number(_) | Expr::Bool(_) | Expr::Var(_) | Expr::Nil => 1,
        Expr::Call { args, .. } | Expr::Primitive { args, .. } => {
            let mut total: usize = 0;
            let mut i: usize = 0;
            while i < args.len()
                invariant
                    i <= args.len(),
                    total == capped(node_counts(terms_of(args@.take(i as int)))),
                decreases args.len() - i,
            {
                proof {
                    assert(decreases_to!(e => args@[i as int]));
                    assert(args@.take(i + 1).drop_last() =~= args@.take(i as int));
                }
                let c = count_nodes(&args[i]);
                proof {
                    let pre = terms_of(args@.take(i as int));
                    assert(pre.push(term_of(args@[i as int])).drop_last() =~= pre);
                }
                total = add_capped(total, c);
                i = i + 1;
            }
            proof { assert(args@.take(args.len() as int) =~= args@); }
            add_capped(1, total)
        },
        Expr::If { condition, then_branch, else_branch } => {
            let a = count_nodes(condition);
            let b = count_nodes(then_branch);
            let c = count_nodes(else_branch);
            add_capped(add_capped(add_capped(1, a), b), c)
        },
        Expr::Let { bindings, body } => {
            let mut total: usize = 0;
            let mut i: usize = 0;
            while i < bindings.len()
                invariant
                    i <= bindings.len(),
                    total == capped(binding_node_counts(binding_terms_of(bindings@.take(i as int)))),
                decreases bindings.len() - i,
            {
                proof {
                    assert(decreases_to!(e => bindings@[i as int].1));
                    assert(bindings@.take(i + 1).drop_last() =~= bindings@.take(i as int));
                }
                let c = count_nodes(&bindings[i].1);
                proof {
                    let pre = binding_terms_of(bindings@.take(i as int));
                    let b = bindings@[i as int];
                    assert(pre.push((b.0@, term_of(b.1))).drop_last() =~= pre);
                }
                total = add_capped(total, c);
                i = i + 1;
            }
            proof { assert(bindings@.take(bindings.len() as int) =~= bindings@); }
            let b = count_nodes(body);
            add_capped(add_capped(1, total), b)
        },
        Expr::Cons(h, t) => {
            let a = count_nodes(h);
            let b = count_nodes(t);
            add_capped(add_capped(1, a), b)
        },
        Expr::Car(v) | Expr::Cdr(v) | Expr::Null(v) => add_capped(1, count_nodes(v)),
    }
}

/// Copies of the names, in order.
pub fn copy_names(v: &Vec<String>) -> (r: Vec<String>)
    ensures
        r@ == v@,
{
    let mut out: Vec<String> = Vec::new();
    let mut i: usize = 0;
    while i < v.len()
        invariant
            i <= v.len(),
            out@ == v@.take(i as int),
        decreases v.len() - i,
    {
        out.push(v[i].clone());
        proof { assert(v@.take(i + 1) =~= v@.take(i as int).push(v@[i as int])); }
        i = i + 1;
    }
    proof { assert(v@.take(v.len() as int) =~= v@); }
    out
}

/// A copy of a definition.
pub fn copy_definition(d: &Definition) -> (r: Definition)
    ensures
        r@ == d@,
        r.name == d.name,
        r.params@ == d.params@,
{
    Definition { name: d.name.clone(), params: copy_names(&d.params), body: copy_expr(&d.body) }
}


/// The mathematical value of a [`Program`]'s definitions and body.
pub struct ProgramTerm {
    pub definitions: Seq<DefTerm>,
    pub body: Option<Term>,
}

pub open spec fn option_term(b: Option<Expr>) -> Option<Term> {
    match b {
        Some(e) => Some(e@),
        None => None,
    }
}

impl View for Program {
    type V = ProgramTerm;

    open spec fn view(&self) -> ProgramTerm {
        ProgramTerm { definitions: defs_of(self.definitions@), body: option_term(self.body) }
    }
}


// ---------------------------------------------------------------------------
// Lowering the Scheme syntax tree
// ---------------------------------------------------------------------------

/// The name of the `n`th local, made from the Scheme name it stands for.
pub open spec fn local_name(n: nat, name: Seq<char>) -> Seq<char> {
    "schemeLocal"@ + decimal(n) + "_"@ + name
}

pub open spec fn number_error(v: i64) -> Seq<char> {
    "number `"@ + signed_decimal(v as int) + "` is outside Bend's signed 24-bit range (-8388608..=8388607)"@
}

pub open spec fn lambda_error() -> Seq<char> {
    "a lambda may only appear as a top-level definition or the immediate callee of an application; first-class closures are not in v0"@
}

pub open spec fn first_class_error() -> Seq<char> {
    "only named functions and immediately-invoked lambdas can be called; first-class functions are not in v0"@
}

pub open spec fn primitive_arity_error(name: Seq<char>) -> Seq<char> {
    "primitive `"@ + name + "` expects exactly two arguments"@
}

pub open spec fn special_arity_error(name: Seq<char>) -> Seq<char> {
    "special form `"@ + name + "` has the wrong arity"@
}

pub open spec fn lambda_arity_error(params: nat, args: nat) -> Seq<char> {
    "lambda expects "@ + decimal(params) + " argument(s), got "@ + decimal(args)
}

pub open spec fn duplicate_error(name: Seq<char>) -> Seq<char> {
    "duplicate top-level definition `"@ + name + "`"@
}

/// The binary primitive a name stands for.
pub open spec fn primitive_of(name: Seq<char>) -> Option<Primitive> {
    if name == "+"@ {
        Some(Primitive::Add)
    } else if name == "-"@ {
        Some(Primitive::Sub)
    } else if name == "*"@ {
        Some(Primitive::Mul)
    } else if name == "mul0"@ {
        Some(Primitive::Mul0)
    } else if name == "/"@ {
        Some(Primitive::Div)
    } else if name == "="@ {
        Some(Primitive::Eq)
    } else if name == "<"@ {
        Some(Primitive::Lt)
    } else if name == ">"@ {
        Some(Primitive::Gt)
    } else if name == "<="@ {
        Some(Primitive::Le)
    } else if name == ">="@ {
        Some(Primitive::Ge)
    } else {
        None
    }
}

/// The runtime helper a special form calls, with the number of arguments
/// it takes.
pub open spec fn special_target(name: Seq<char>) -> Option<(Seq<char>, nat)> {
    if name == "map-empty"@ {
        Some(("__scheme_map_empty"@, 0))
    } else if name == "map-get"@ {
        Some(("__scheme_map_get"@, 3))
    } else if name == "map-set"@ {
        Some(("__scheme_map_set"@, 3))
    } else if name == "sparse-frontier"@ {
        Some(("__scheme_sparse_frontier"@, 3))
    } else if name == "sparse-scatter"@ {
        Some(("__scheme_sparse_scatter"@, 3))
    } else if name == "sparse-square-sum"@ {
        Some(("__scheme_sparse_square_sum"@, 2))
    } else if name == "sparse-chunk-tree"@ {
        Some(("__scheme_sparse_chunk_tree"@, 3))
    } else if name == "sparse-parallel-chunks"@ {
        Some(("__scheme_sparse_parallel_chunks"@, 3))
    } else {
        None
    }
}

/// A call of a named function: special forms call their runtime helper and
/// must get its number of arguments; any other name is called as written.
pub open spec fn special_of(name: Seq<char>, args: Seq<Term>) -> Result<Term, Seq<char>> {
    match special_target(name) {
        Some((callee, arity)) => if args.len() == arity {
            Ok(Term::Call { callee, args })
        } else {
            Err(special_arity_error(name))
        },
        None => Ok(Term::Call { callee: name, args }),
    }
}

/// Some binding of `scope` is for `name`.
pub open spec fn in_scope(scope: Renaming, name: Seq<char>) -> bool {
    exists|i: int| 0 <= i < scope.len() && #[trigger] scope[i].0 == name
}

/// Give each parameter a fresh local from counter `n` on: the locals, the
/// scope extended with them, and the counter after.
pub open spec fn bind_params(params: Seq<Seq<char>>, scope: Renaming, n: nat) -> (Seq<Seq<char>>, Renaming, nat)
    decreases params.len(),
{
    if params.len() == 0 {
        (Seq::empty(), scope, n)
    } else {
        let (locals, sc, m) = bind_params(params.drop_last(), scope, n);
        let local = local_name(m, params.last());
        (locals.push(local), sc.push((params.last(), local)), m + 1)
    }
}

/// Give each lowered `let` binding a fresh local, in order.
pub open spec fn bind_locals(values: Seq<(Seq<char>, Term)>, scope: Renaming, n: nat) -> (
    Seq<(Seq<char>, Term)>,
    Renaming,
    nat,
)
    decreases values.len(),
{
    if values.len() == 0 {
        (values, scope, n)
    } else {
        let (bs, sc, m) = bind_locals(values.drop_last(), scope, n);
        let local = local_name(m, values.last().0);
        (bs.push((local, values.last().1)), sc.push((values.last().0, local)), m + 1)
    }
}

/// Lowering of `e` under `scope` with the local counter at `n`: the term and
/// the counter after, or the first diagnostic met.
pub open spec fn lowered(e: AstTerm, scope: Renaming, n: nat) -> Result<(Term, nat), Seq<char>>
    decreases e,
{
    match e {
        AstTerm::Number(v) => if in_i24(v as int) {
            Ok((Term::Number(v), n))
        } else {
            Err(number_error(v))
        },
        AstTerm::Bool(b) => Ok((Term::Bool(b), n)),
        AstTerm::Var(v) => Ok((Term::Var(renamed_to(scope, v)), n)),
        AstTerm::Nil => Ok((Term::Nil, n)),
        AstTerm::If { condition, then_branch, else_branch } => match lowered(*condition, scope, n) {
            Err(m) => Err(m),
            Ok((c, n1)) => match lowered(*then_branch, scope, n1) {
                Err(m) => Err(m),
                Ok((a, n2)) => match lowered(*else_branch, scope, n2) {
                    Err(m) => Err(m),
                    Ok((b, n3)) => Ok(
                        (Term::If { condition: Box::new(c), then_branch: Box::new(a), else_branch: Box::new(b) }, n3),
                    ),
                },
            },
        },
        AstTerm::Let { bindings, body } => match lowered_values(bindings, scope, n) {
            Err(m) => Err(m),
            Ok((values, n1)) => {
                let (bs, inner, n2) = bind_locals(values, scope, n1);
                match lowered(*body, inner, n2) {
                    Err(m) => Err(m),
                    Ok((b, n3)) => Ok((Term::Let { bindings: bs, body: Box::new(b) }, n3)),
                }
            },
        },
        AstTerm::Cons(a, b) => match lowered(*a, scope, n) {
            Err(m) => Err(m),
            Ok((x, n1)) => match lowered(*b, scope, n1) {
                Err(m) => Err(m),
                Ok((y, n2)) => Ok((Term::Cons(Box::new(x), Box::new(y)), n2)),
            },
        },
        AstTerm::Car(v) => match lowered(*v, scope, n) {
            Err(m) => Err(m),
            Ok((x, n1)) => Ok((Term::Car(Box::new(x)), n1)),
        },
        AstTerm::Cdr(v) => match lowered(*v, scope, n) {
            Err(m) => Err(m),
            Ok((x, n1)) => Ok((Term::Cdr(Box::new(x)), n1)),
        },
        AstTerm::Null(v) => match lowered(*v, scope, n) {
            Err(m) => Err(m),
            Ok((x, n1)) => Ok((Term::Null(Box::new(x)), n1)),
        },
        AstTerm::Lambda { .. } => Err(lambda_error()),
        AstTerm::Apply { function, args } => match lowered_args(args, scope, n) {
            Err(m) => Err(m),
            Ok((a, n1)) => match *function {
                AstTerm::Var(name) => if in_scope(scope, name) {
                    Err(first_class_error())
                } else {
                    match primitive_of(name) {
                        Some(op) => if a.len() == 2 {
                            Ok((Term::Primitive { op, args: a }, n1))
                        } else {
                            Err(primitive_arity_error(name))
                        },
                        None => match special_of(name, a) {
                            Ok(t) => Ok((t, n1)),
                            Err(m) => Err(m),
                        },
                    }
                },
                AstTerm::Lambda { params, body } => if params.len() != a.len() {
                    Err(lambda_arity_error(params.len(), a.len()))
                } else {
                    let (locals, inner, n2) = bind_params(params, scope, n1);
                    match lowered(*body, inner, n2) {
                        Err(m) => Err(m),
                        Ok((b, n3)) => Ok(
                            (
                                Term::Let {
                                    bindings: Seq::new(locals.len(), |i: int| (locals[i], a[i])),
                                    body: Box::new(b),
                                },
                                n3,
                            ),
                        ),
                    }
                },
                _ => Err(first_class_error()),
            },
        },
    }
}

pub open spec fn lowered_args(s: Seq<AstTerm>, scope: Renaming, n: nat) -> Result<(Seq<Term>, nat), Seq<char>>
    decreases s,
{
    if s.len() == 0 {
        Ok((Seq::empty(), n))
    } else {
        match lowered_args(s.drop_last(), scope, n) {
            Err(m) => Err(m),
            Ok((front, n1)) => match lowered(s.last(), scope, n1) {
                Err(m) => Err(m),
                Ok((x, n2)) => Ok((front.push(x), n2)),
            },
        }
    }
}

pub open spec fn lowered_values(s: Seq<(Seq<char>, AstTerm)>, scope: Renaming, n: nat) -> Result<
    (Seq<(Seq<char>, Term)>, nat),
    Seq<char>,
>
    decreases s,
{
    if s.len() == 0 {
        Ok((Seq::empty(), n))
    } else {
        match lowered_values(s.drop_last(), scope, n) {
            Err(m) => Err(m),
            Ok((front, n1)) => match lowered(s.last().1, scope, n1) {
                Err(m) => Err(m),
                Ok((x, n2)) => Ok((front.push((s.last().0, x)), n2)),
            },
        }
    }
}

/// How many locals lowering `e` can take at most.
pub open spec fn binders(e: AstTerm) -> nat
    decreases e,
{
    match e {
        AstTerm::Lambda { params, body } => params.len() + binders(*body),
        AstTerm::Apply { function, args } => binders(*function) + binders_all(args),
        AstTerm::If { condition, then_branch, else_branch } => binders(*condition) + binders(*then_branch)
            + binders(*else_branch),
        AstTerm::Let { bindings, body } => bindings.len() + binders_bindings(bindings) + binders(*body),
        AstTerm::Cons(a, b) => binders(*a) + binders(*b),
        AstTerm::Car(v) | AstTerm::Cdr(v) | AstTerm::Null(v) => binders(*v),
        _ => 0,
    }
}

pub open spec fn binders_all(s: Seq<AstTerm>) -> nat
    decreases s,
{
    if s.len() == 0 {
        0
    } else {
        binders_all(s.drop_last()) + binders(s.last())
    }
}

pub open spec fn binders_bindings(s: Seq<(Seq<char>, AstTerm)>) -> nat
    decreases s,
{
    if s.len() == 0 {
        0
    } else {
        binders_bindings(s.drop_last()) + binders(s.last().1)
    }
}

/// `r` is the lowering result `s`: the same term, or the same diagnostic.
pub open spec fn lowers_to(r: Result<Expr, CompileError>, s: Result<Term, Seq<char>>) -> bool {
    match s {
        Ok(t) => r matches Ok(e) && e@ == t,
        Err(m) => r matches Err(err) && err.0@ == m,
    }
}

/// The primitive `name` stands for.
pub fn primitive(name: &String) -> (r: Option<Primitive>)
    ensures
        r == primitive_of(name@),
{
    if text_is(name, "+") {
        Some(Primitive::Add)
    } else if text_is(name, "-") {
        Some(Primitive::Sub)
    } else if text_is(name, "*") {
        Some(Primitive::Mul)
    } else if text_is(name, "mul0") {
        Some(Primitive::Mul0)
    } else if text_is(name, "/") {
        Some(Primitive::Div)
    } else if text_is(name, "=") {
        Some(Primitive::Eq)
    } else if text_is(name, "<") {
        Some(Primitive::Lt)
    } else if text_is(name, ">") {
        Some(Primitive::Gt)
    } else if text_is(name, "<=") {
        Some(Primitive::Le)
    } else if text_is(name, ">=") {
        Some(Primitive::Ge)
    } else {
        None
    }
}

fn special_helper(name: &String) -> (r: Option<(&'static str, usize)>)
    ensures
        match special_target(name@) {
            Some((callee, arity)) => r matches Some((c, k)) && c@ == callee && k == arity,
            None => r is None,
        },
{
    if text_is(name, "map-empty") {
        Some(("__scheme_map_empty", 0))
    } else if text_is(name, "map-get") {
        Some(("__scheme_map_get", 3))
    } else if text_is(name, "map-set") {
        Some(("__scheme_map_set", 3))
    } else if text_is(name, "sparse-frontier") {
        Some(("__scheme_sparse_frontier", 3))
    } else if text_is(name, "sparse-scatter") {
        Some(("__scheme_sparse_scatter", 3))
    } else if text_is(name, "sparse-square-sum") {
        Some(("__scheme_sparse_square_sum", 2))
    } else if text_is(name, "sparse-chunk-tree") {
        Some(("__scheme_sparse_chunk_tree", 3))
    } else if text_is(name, "sparse-parallel-chunks") {
        Some(("__scheme_sparse_parallel_chunks", 3))
    } else {
        None
    }
}

/// A call of `name`: a special form calls its runtime helper.
pub fn special(name: &String, args: Vec<Expr>) -> (r: Result<Expr, CompileError>)
    ensures
        lowers_to(r, special_of(name@, terms_of(args@))),
{
    proof { lemma_terms_of(args@); }
    match special_helper(name) {
        Some((callee, arity)) => if args.len() == arity {
            Ok(Expr::Call { callee: String::from_str(callee), args })
        } else {
            let mut message = String::new();
            push_str(&mut message, "special form `");
            push_str(&mut message, name.as_str());
            push_str(&mut message, "` has the wrong arity");
            proof { assert(message@ =~= special_arity_error(name@)); }
            Err(CompileError(message))
        },
        None => Ok(Expr::Call { callee: name.clone(), args }),
    }
}


/// Whether some binding of `scope` is for `name`.
fn scope_has(scope: &Vec<(String, String)>, name: &String) -> (r: bool)
    ensures
        r == in_scope(pairs_of(scope@), name@),
{
    let mut i: usize = 0;
    while i < scope.len()
        invariant
            i <= scope.len(),
            forall|j: int| 0 <= j < i ==> scope@[j].0@ != name@,
        decreases scope.len() - i,
    {
        if crate::text::same_text(&scope[i].0, name) {
            proof { assert(pairs_of(scope@)[i as int].0 == name@); }
            return true;
        }
        i = i + 1;
    }
    proof {
        if in_scope(pairs_of(scope@), name@) {
            let j = choose|j: int| 0 <= j < pairs_of(scope@).len() && #[trigger] pairs_of(scope@)[j].0 == name@;
            assert(scope@[j].0@ == name@);
        }
    }
    false
}

/// What `name` is bound to in `scope`; itself when `scope` does not bind it.
fn scope_get(scope: &Vec<(String, String)>, name: &String) -> (r: String)
    ensures
        r@ == renamed_to(pairs_of(scope@), name@),
{
    let mut i: usize = scope.len();
    proof { assert(scope@.take(scope.len() as int) =~= scope@); }
    while i > 0
        invariant
            i <= scope.len(),
            renamed_to(pairs_of(scope@), name@) == renamed_to(pairs_of(scope@.take(i as int)), name@),
        decreases i,
    {
        proof { assert(pairs_of(scope@.take(i as int)).drop_last() =~= pairs_of(scope@.take(i - 1))); }
        if crate::text::same_text(&scope[i - 1].0, name) {
            return scope[i - 1].1.clone();
        }
        i = i - 1;
    }
    proof { assert(pairs_of(scope@.take(0)) =~= Seq::empty()); }
    name.clone()
}

/// A copy of a scope.
fn copy_scope(scope: &Vec<(String, String)>) -> (r: Vec<(String, String)>)
    ensures
        pairs_of(r@) == pairs_of(scope@),
{
    let mut out: Vec<(String, String)> = Vec::new();
    let mut i: usize = 0;
    while i < scope.len()
        invariant
            i <= scope.len(),
            pairs_of(out@) == pairs_of(scope@.take(i as int)),
        decreases scope.len() - i,
    {
        let ghost before = out@;
        let pair = (scope[i].0.clone(), scope[i].1.clone());
        out.push(pair);
        proof {
            assert(pairs_of(out@) =~= pairs_of(before).push((pair.0@, pair.1@)));
            assert(pairs_of(scope@.take(i + 1)) =~= pairs_of(scope@.take(i as int)).push(
                (scope@[i as int].0@, scope@[i as int].1@),
            ));
        }
        i = i + 1;
    }
    proof { assert(scope@.take(scope.len() as int) =~= scope@); }
    out
}

/// Renames Scheme locals apart with a counter.
pub struct Lowerer {
    pub next_local: usize,
}

impl Lowerer {
    /// A fresh local standing for the Scheme name `name`.
    pub fn fresh(&mut self, name: &String) -> (r: String)
        requires
            old(self).next_local < usize::MAX,
        ensures
            r@ == local_name(old(self).next_local as nat, name@),
            final(self).next_local == old(self).next_local + 1,
    {
        let mut local = String::new();
        push_str(&mut local, "schemeLocal");
        push_decimal(&mut local, self.next_local as u64);
        push_str(&mut local, "_");
        push_str(&mut local, name.as_str());
        proof { assert(local@ =~= local_name(self.next_local as nat, name@)); }
        self.next_local = self.next_local + 1;
        local
    }

    /// Give each parameter a fresh local: the locals and `outer` extended
    /// with them.
    pub fn bind_parameters(&mut self, params: &Vec<String>, outer: &Vec<(String, String)>) -> (r: (
        Vec<String>,
        Vec<(String, String)>,
    ))
        requires
            old(self).next_local + params.len() <= usize::MAX,
        ensures
            (names_of(r.0@), pairs_of(r.1@), final(self).next_local as nat) == bind_params(
                names_of(params@),
                pairs_of(outer@),
                old(self).next_local as nat,
            ),
            final(self).next_local == old(self).next_local + params.len(),
    {
        let ghost start = self.next_local;
        let mut scope = copy_scope(outer);
        let mut lowered: Vec<String> = Vec::new();
        let mut i: usize = 0;
        proof {
            assert(names_of(lowered@) =~= Seq::empty());
            assert(names_of(params@).take(0) =~= Seq::empty());
        }
        while i < params.len()
            invariant
                i <= params.len(),
                start + params.len() <= usize::MAX,
                self.next_local == start + i,
                (names_of(lowered@), pairs_of(scope@), self.next_local as nat) == bind_params(
                    names_of(params@).take(i as int),
                    pairs_of(outer@),
                    start as nat,
                ),
            decreases params.len() - i,
        {
            proof {
                assert(names_of(params@).take(i + 1).drop_last() =~= names_of(params@).take(i as int));
            }
            let local = self.fresh(&params[i]);
            let ghost before_scope = scope@;
            let ghost before_lowered = lowered@;
            scope.push((params[i].clone(), local.clone()));
            lowered.push(local);
            proof {
                assert(pairs_of(scope@) =~= pairs_of(before_scope).push((params@[i as int]@, lowered@.last()@)));
                assert(names_of(lowered@) =~= names_of(before_lowered).push(lowered@.last()@));
            }
            i = i + 1;
        }
        proof { assert(names_of(params@).take(params.len() as int) =~= names_of(params@)); }
        (lowered, scope)
    }

    /// Lower each expression in turn.
    pub fn args(&mut self, args: &Vec<ast::Expr>, scope: &Vec<(String, String)>) -> (r: Result<
        Vec<Expr>,
        CompileError,
    >)
        requires
            old(self).next_local + binders_all(ast::asts_of(args@)) <= usize::MAX,
        ensures
            final(self).next_local <= old(self).next_local + binders_all(ast::asts_of(args@)),
            match lowered_args(ast::asts_of(args@), pairs_of(scope@), old(self).next_local as nat) {
                Ok((a, n)) => r matches Ok(v) && terms_of(v@) == a && final(self).next_local == n,
                Err(m) => r matches Err(err) && err.0@ == m,
            },
        decreases args, 0nat,
    {
        let ghost start = self.next_local;
        let mut out: Vec<Expr> = Vec::new();
        let mut i: usize = 0;
        proof { assert(ast::asts_of(args@.take(0)) =~= Seq::empty()); }
        while i < args.len()
            invariant
                i <= args.len(),
                start + binders_all(ast::asts_of(args@)) <= usize::MAX,
                start == old(self).next_local,
                self.next_local <= start + binders_all(ast::asts_of(args@.take(i as int))),
                binders_all(ast::asts_of(args@.take(i as int))) <= binders_all(ast::asts_of(args@)),
                lowered_args(ast::asts_of(args@.take(i as int)), pairs_of(scope@), start as nat) == Ok::<
                    (Seq<Term>, nat),
                    Seq<char>,
                >((terms_of(out@), self.next_local as nat)),
            decreases args.len() - i,
        {
            proof {
                assert(decreases_to!(args => args@[i as int]));
                assert(args@.take(i + 1).drop_last() =~= args@.take(i as int));
                let pre = ast::asts_of(args@.take(i as int));
                assert(pre.push(ast::ast_of(args@[i as int])).drop_last() =~= pre);
                lemma_binders_prefix(args@, i + 1);
            }
            let x = self.expr(&args[i], scope);
            match x {
                Ok(x) => {
                    proof { assert(out@.push(x).drop_last() =~= out@); }
                    out.push(x);
                },
                Err(err) => {
                    proof { lemma_lowered_args_error(args@, pairs_of(scope@), start as nat, i + 1); }
                    return Err(err);
                },
            }
            i = i + 1;
        }
        proof { assert(args@.take(args.len() as int) =~= args@); }
        Ok(out)
    }

    /// Lower a `let`: the values under the outer scope, then the body with
    /// every name bound to a fresh local.
    #[verifier::loop_isolation(false)]
    #[verifier::rlimit(40)]
    fn lower_let(&mut self, expr: &ast::Expr, scope: &Vec<(String, String)>) -> (r: Result<Expr, CompileError>)
        requires
            expr is Let,
            old(self).next_local + binders(expr@) <= usize::MAX,
        ensures
            final(self).next_local <= old(self).next_local + binders(expr@),
            match lowered(expr@, pairs_of(scope@), old(self).next_local as nat) {
                Ok((t, n)) => r matches Ok(e) && e@ == t && final(self).next_local == n,
                Err(m) => r matches Err(err) && err.0@ == m,
            },
        decreases expr, 0nat,
    {
        match expr {
            ast::Expr::Let { bindings, body } => {
                let ghost start = self.next_local;
                let ghost sc = pairs_of(scope@);
                let mut values: Vec<(String, Expr)> = Vec::new();
                let mut i: usize = 0;
                proof { assert(ast::ast_bindings_of(bindings@.take(0)) =~= Seq::empty()); }
                while i < bindings.len()
                    invariant
                        i <= bindings.len(),
                        self.next_local <= start + binders_bindings(ast::ast_bindings_of(bindings@.take(i as int))),
                        binders_bindings(ast::ast_bindings_of(bindings@.take(i as int))) <= binders_bindings(
                            ast::ast_bindings_of(bindings@),
                        ),
                        lowered_values(ast::ast_bindings_of(bindings@.take(i as int)), sc, start as nat) == Ok::<
                            (Seq<(Seq<char>, Term)>, nat),
                            Seq<char>,
                        >((binding_terms_of(values@), self.next_local as nat)),
                    decreases bindings.len() - i,
                {
                    proof {
                        assert(decreases_to!(expr => bindings@[i as int].1));
                        assert(bindings@.take(i + 1).drop_last() =~= bindings@.take(i as int));
                        let pre = ast::ast_bindings_of(bindings@.take(i as int));
                        let b = bindings@[i as int];
                        assert(pre.push((b.0@, ast::ast_of(b.1))).drop_last() =~= pre);
                        lemma_binders_bindings_prefix(bindings@, i + 1);
                    }
                    match self.expr(&bindings[i].1, scope) {
                        Ok(v) => {
                            let pair = (bindings[i].0.clone(), v);
                            proof { assert(values@.push(pair).drop_last() =~= values@); }
                            values.push(pair);
                        },
                        Err(err) => {
                            proof {
                                lemma_lowered_values_error(bindings@, sc, start as nat, i + 1);
                            }
                            return Err(err);
                        },
                    }
                    i = i + 1;
                }
                proof { assert(bindings@.take(bindings.len() as int) =~= bindings@); }
                let ghost middle = self.next_local;
                let mut inner = copy_scope(scope);
                let mut out: Vec<(String, Expr)> = Vec::new();
                let mut j: usize = 0;
                proof {
                    assert(binding_terms_of(values@.take(0)) =~= Seq::empty());
                    lemma_binding_terms_of(values@);
                    lemma_binders_bindings_len(bindings@);
                    lemma_lowered_values_len(ast::ast_bindings_of(bindings@), sc, start as nat);
                }
                while j < values.len()
                    invariant
                        j <= values.len(),
                        values.len() == bindings.len(),
                        self.next_local == middle + j,
                        middle + bindings.len() <= usize::MAX,
                        (binding_terms_of(out@), pairs_of(inner@), self.next_local as nat) == bind_locals(
                            binding_terms_of(values@.take(j as int)),
                            sc,
                            middle as nat,
                        ),
                    decreases values.len() - j,
                {
                    proof {
                        assert(values@.take(j + 1).drop_last() =~= values@.take(j as int));
                        let pre = binding_terms_of(values@.take(j as int));
                        let b = values@[j as int];
                        assert(pre.push((b.0@, term_of(b.1))).drop_last() =~= pre);
                    }
                    let local = self.fresh(&values[j].0);
                    let ghost before_inner = inner@;
                    inner.push((values[j].0.clone(), local.clone()));
                    proof { assert(pairs_of(inner@) =~= pairs_of(before_inner).push((values@[j as int].0@, local@))); }
                    let pair = (local, copy_expr(&values[j].1));
                    proof { assert(out@.push(pair).drop_last() =~= out@); }
                    out.push(pair);
                    j = j + 1;
                }
                proof { assert(values@.take(values.len() as int) =~= values@); }
                let b = self.expr(body, &inner)?;
                Ok(Expr::Let { bindings: out, body: Box::new(b) })
            },
            _ => Err(crate::error("")),
        }
    }

    /// Lower an application: the arguments first, then the callee.
    #[verifier::loop_isolation(false)]
    fn lower_apply(&mut self, expr: &ast::Expr, scope: &Vec<(String, String)>) -> (r: Result<Expr, CompileError>)
        requires
            expr is Apply,
            old(self).next_local + binders(expr@) <= usize::MAX,
        ensures
            final(self).next_local <= old(self).next_local + binders(expr@),
            match lowered(expr@, pairs_of(scope@), old(self).next_local as nat) {
                Ok((t, n)) => r matches Ok(e) && e@ == t && final(self).next_local == n,
                Err(m) => r matches Err(err) && err.0@ == m,
            },
        decreases expr, 0nat,
    {
        match expr {
            ast::Expr::Apply { function, args } => {
                let old_args = args;
                proof { assert(decreases_to!(expr => args)); }
                let arguments = self.args(args, scope)?;
                let args = arguments;
                proof {
                    lemma_terms_of(args@);
                    assert(binders(expr@) == binders(ast::ast_of(**function)) + binders_all(ast::asts_of(old_args@)));
                }
                match &**function {
                    ast::Expr::Var(name) => {
                        if scope_has(scope, name) {
                            Err(crate::error(
                                "only named functions and immediately-invoked lambdas can be called; first-class functions are not in v0",
                            ))
                        } else {
                            match primitive(name) {
                            Some(op) => if args.len() == 2 {
                                Ok(Expr::Primitive { op, args })
                            } else {
                                let mut message = String::new();
                                push_str(&mut message, "primitive `");
                                push_str(&mut message, name.as_str());
                                push_str(&mut message, "` expects exactly two arguments");
                                proof { assert(message@ =~= primitive_arity_error(name@)); }
                                Err(CompileError(message))
                            },
                            None => special(name, args),
                        }
                        }
                    },
                    ast::Expr::Lambda { params, body } => {
                        if params.len() != args.len() {
                            let mut message = String::new();
                            push_str(&mut message, "lambda expects ");
                            push_decimal(&mut message, params.len() as u64);
                            push_str(&mut message, " argument(s), got ");
                            push_decimal(&mut message, args.len() as u64);
                            proof { assert(message@ =~= lambda_arity_error(params@.len(), args@.len())); }
                            Err(CompileError(message))
                        } else {
                        proof { assert(binders(ast::ast_of(**function)) == params@.len() + binders(ast::ast_of(**body))); }
                        let ghost before_bind = self.next_local;
                        let (locals, lambda_scope) = self.bind_parameters(params, scope);
                        proof { lemma_bind_params_len(names_of(params@), pairs_of(scope@), before_bind as nat); }
                        let b = self.expr(body, &lambda_scope)?;
                        let mut bindings: Vec<(String, Expr)> = Vec::new();
                        let mut k: usize = 0;
                        while k < locals.len()
                            invariant
                                k <= locals.len(),
                                locals.len() == args.len(),
                                binding_terms_of(bindings@) == Seq::new(
                                    names_of(locals@).len(),
                                    |i: int| (names_of(locals@)[i], terms_of(args@)[i]),
                                ).take(k as int),
                            decreases locals.len() - k,
                        {
                            let pair = (locals[k].clone(), copy_expr(&args[k]));
                            proof {
                                assert(bindings@.push(pair).drop_last() =~= bindings@);
                                assert(Seq::new(names_of(locals@).len(), |i: int| (names_of(locals@)[i], terms_of(args@)[i])).take(k + 1)
                                    =~= Seq::new(names_of(locals@).len(), |i: int| (names_of(locals@)[i], terms_of(args@)[i])).take(
                                    k as int,
                                ).push((names_of(locals@)[k as int], terms_of(args@)[k as int])));
                            }
                            bindings.push(pair);
                            k = k + 1;
                        }
                        proof {
                            assert(Seq::new(names_of(locals@).len(), |i: int| (names_of(locals@)[i], terms_of(args@)[i])).take(
                                locals.len() as int,
                            ) =~= Seq::new(names_of(locals@).len(), |i: int| (names_of(locals@)[i], terms_of(args@)[i])));
                        }
                        Ok(Expr::Let { bindings, body: Box::new(b) })
                        }
                    },
                    _ => Err(crate::error(
                        "only named functions and immediately-invoked lambdas can be called; first-class functions are not in v0",
                    )),
                }
            },
            _ => Err(crate::error("")),
        }
    }

    /// Lower `expr` with Scheme names resolved through `scope`.
    #[verifier::loop_isolation(false)]
    pub fn expr(&mut self, expr: &ast::Expr, scope: &Vec<(String, String)>) -> (r: Result<Expr, CompileError>)
        requires
            old(self).next_local + binders(expr@) <= usize::MAX,
        ensures
            final(self).next_local <= old(self).next_local + binders(expr@),
            match lowered(expr@, pairs_of(scope@), old(self).next_local as nat) {
                Ok((t, n)) => r matches Ok(e) && e@ == t && final(self).next_local == n,
                Err(m) => r matches Err(err) && err.0@ == m,
            },
        decreases expr, 1nat,
    {
        match expr {
            ast::Expr::Number(n) => {
                let n = *n;
                if n < I24_MIN || n > I24_MAX {
                    let mut message = String::new();
                    push_str(&mut message, "number `");
                    push_signed(&mut message, n);
                    push_str(&mut message, "` is outside Bend's signed 24-bit range (-8388608..=8388607)");
                    proof { assert(message@ =~= number_error(n)); }
                    Err(CompileError(message))
                } else {
                    Ok(Expr::Number(n))
                }
            },
            ast::Expr::Bool(b) => Ok(Expr::Bool(*b)),
            ast::Expr::Var(v) => Ok(Expr::Var(scope_get(scope, v))),
            ast::Expr::Nil => Ok(Expr::Nil),
            ast::Expr::If { condition, then_branch, else_branch } => {
                let c = self.expr(condition, scope)?;
                let a = self.expr(then_branch, scope)?;
                let b = self.expr(else_branch, scope)?;
                Ok(Expr::If { condition: Box::new(c), then_branch: Box::new(a), else_branch: Box::new(b) })
            },
            ast::Expr::Let { .. } => self.lower_let(expr, scope),
            ast::Expr::Cons(a, b) => {
                let x = self.expr(a, scope)?;
                let y = self.expr(b, scope)?;
                Ok(Expr::Cons(Box::new(x), Box::new(y)))
            },
            ast::Expr::Car(v) => Ok(Expr::Car(Box::new(self.expr(v, scope)?))),
            ast::Expr::Cdr(v) => Ok(Expr::Cdr(Box::new(self.expr(v, scope)?))),
            ast::Expr::Null(v) => Ok(Expr::Null(Box::new(self.expr(v, scope)?))),
            ast::Expr::Lambda { .. } => Err(crate::error(
                "a lambda may only appear as a top-level definition or the immediate callee of an application; first-class closures are not in v0",
            )),
            ast::Expr::Apply { .. } => self.lower_apply(expr, scope),
        }
    }
}

proof fn lemma_bind_params_len(params: Seq<Seq<char>>, scope: Renaming, n: nat)
    ensures
        bind_params(params, scope, n).0.len() == params.len(),
    decreases params.len(),
{
    if params.len() > 0 {
        lemma_bind_params_len(params.drop_last(), scope, n);
    }
}

proof fn lemma_binders_prefix(s: Seq<ast::Expr>, k: int)
    requires
        0 <= k <= s.len(),
    ensures
        binders_all(ast::asts_of(s.take(k))) <= binders_all(ast::asts_of(s)),
    decreases s.len() - k,
{
    if k < s.len() {
        lemma_binders_prefix(s, k + 1);
        assert(s.take(k + 1).drop_last() =~= s.take(k));
        let pre = ast::asts_of(s.take(k));
        assert(pre.push(ast::ast_of(s[k])).drop_last() =~= pre);
    } else {
        assert(s.take(k) =~= s);
    }
}

proof fn lemma_binders_bindings_prefix(s: Seq<(String, ast::Expr)>, k: int)
    requires
        0 <= k <= s.len(),
    ensures
        binders_bindings(ast::ast_bindings_of(s.take(k))) <= binders_bindings(ast::ast_bindings_of(s)),
    decreases s.len() - k,
{
    if k < s.len() {
        lemma_binders_bindings_prefix(s, k + 1);
        assert(s.take(k + 1).drop_last() =~= s.take(k));
        let pre = ast::ast_bindings_of(s.take(k));
        assert(pre.push((s[k].0@, ast::ast_of(s[k].1))).drop_last() =~= pre);
    } else {
        assert(s.take(k) =~= s);
    }
}

proof fn lemma_binders_bindings_len(s: Seq<(String, ast::Expr)>)
    ensures
        ast::ast_bindings_of(s).len() == s.len(),
{
    ast::lemma_ast_bindings_of(s);
}

proof fn lemma_lowered_args_error(s: Seq<ast::Expr>, scope: Renaming, n: nat, k: int)
    requires
        0 <= k <= s.len(),
        lowered_args(ast::asts_of(s.take(k)), scope, n) is Err,
    ensures
        lowered_args(ast::asts_of(s), scope, n) == lowered_args(ast::asts_of(s.take(k)), scope, n),
    decreases s.len() - k,
{
    if k < s.len() {
        assert(s.take(k + 1).drop_last() =~= s.take(k));
        let pre = ast::asts_of(s.take(k));
        assert(pre.push(ast::ast_of(s[k])).drop_last() =~= pre);
        lemma_lowered_args_error(s, scope, n, k + 1);
    } else {
        assert(s.take(k) =~= s);
    }
}

proof fn lemma_lowered_values_error(s: Seq<(String, ast::Expr)>, scope: Renaming, n: nat, k: int)
    requires
        0 <= k <= s.len(),
        lowered_values(ast::ast_bindings_of(s.take(k)), scope, n) is Err,
    ensures
        lowered_values(ast::ast_bindings_of(s), scope, n) == lowered_values(ast::ast_bindings_of(s.take(k)), scope, n),
    decreases s.len() - k,
{
    if k < s.len() {
        assert(s.take(k + 1).drop_last() =~= s.take(k));
        let pre = ast::ast_bindings_of(s.take(k));
        assert(pre.push((s[k].0@, ast::ast_of(s[k].1))).drop_last() =~= pre);
        lemma_lowered_values_error(s, scope, n, k + 1);
    } else {
        assert(s.take(k) =~= s);
    }
}

proof fn lemma_lowered_values_len(s: Seq<(Seq<char>, AstTerm)>, scope: Renaming, n: nat)
    ensures
        lowered_values(s, scope, n) matches Ok((v, _)) ==> v.len() == s.len(),
    decreases s.len(),
{
    if s.len() > 0 {
        lemma_lowered_values_len(s.drop_last(), scope, n);
    }
}


/// The names of the top-level definitions, then those of the graphs.
pub open spec fn top_level_names(p: ast::AstProgram) -> Seq<Seq<char>> {
    p.definitions.map_values(|d: ast::AstDef| d.name) + p.graphs.map_values(|g: ast::GraphTerm| g.name)
}

/// The first name that repeats an earlier one.
pub open spec fn first_repeat(s: Seq<Seq<char>>) -> Option<Seq<char>>
    decreases s.len(),
{
    if s.len() == 0 {
        None
    } else {
        match first_repeat(s.drop_last()) {
            Some(x) => Some(x),
            None => if s.drop_last().contains(s.last()) {
                Some(s.last())
            } else {
                None
            },
        }
    }
}

/// A definition's parameters and body: those of its lambda, or none and the
/// whole value.
pub open spec fn definition_parts(v: AstTerm) -> (Seq<Seq<char>>, AstTerm) {
    match v {
        AstTerm::Lambda { params, body } => (params, *body),
        other => (Seq::empty(), other),
    }
}

pub open spec fn lowered_definition(d: ast::AstDef, n: nat) -> Result<(DefTerm, nat), Seq<char>> {
    let (params, body) = definition_parts(d.value);
    let (locals, scope, n1) = bind_params(params, Seq::empty(), n);
    match lowered(body, scope, n1) {
        Err(m) => Err(m),
        Ok((b, n2)) => Ok((DefTerm { name: d.name, params: locals, body: b }, n2)),
    }
}

/// The definitions lowered in order, sharing one local counter.
pub open spec fn lowered_definitions(ds: Seq<ast::AstDef>, n: nat) -> Result<(Seq<DefTerm>, nat), Seq<char>>
    decreases ds.len(),
{
    if ds.len() == 0 {
        Ok((Seq::empty(), n))
    } else {
        match lowered_definitions(ds.drop_last(), n) {
            Err(m) => Err(m),
            Ok((front, n1)) => match lowered_definition(ds.last(), n1) {
                Err(m) => Err(m),
                Ok((d, n2)) => Ok((front.push(d), n2)),
            },
        }
    }
}

pub open spec fn lowered_body(body: Option<AstTerm>, n: nat) -> Result<Option<Term>, Seq<char>> {
    match body {
        None => Ok(None),
        Some(e) => match lowered(e, Seq::empty(), n) {
            Err(m) => Err(m),
            Ok((t, _)) => Ok(Some(t)),
        },
    }
}

/// A static graph the graph pass accepts.
pub open spec fn graph_ok(g: ast::GraphTerm) -> bool {
    !crate::graph::edge_into_input(g) && !crate::graph::weight_out_of_range(g) && crate::graph::live_acyclic(g)
}

/// The diagnostic for the first static graph the graph pass refuses.
pub open spec fn first_graph_error(gs: Seq<ast::GraphTerm>) -> Option<Seq<char>>
    decreases gs.len(),
{
    if gs.len() == 0 {
        None
    } else {
        match first_graph_error(gs.drop_last()) {
            Some(m) => Some(m),
            None => if graph_ok(gs.last()) {
                None
            } else {
                Some(crate::graph::graph_error(gs.last()))
            },
        }
    }
}

proof fn lemma_first_graph_error_prefix(gs: Seq<ast::GraphTerm>, k: int)
    requires
        0 <= k <= gs.len(),
        first_graph_error(gs.take(k)) is Some,
    ensures
        first_graph_error(gs) == first_graph_error(gs.take(k)),
    decreases gs.len() - k,
{
    if k < gs.len() {
        assert(gs.take(k + 1).drop_last() =~= gs.take(k));
        lemma_first_graph_error_prefix(gs, k + 1);
    } else {
        assert(gs.take(k) =~= gs);
    }
}

pub open spec fn definitions_binders(ds: Seq<ast::AstDef>) -> nat
    decreases ds.len(),
{
    if ds.len() == 0 {
        0
    } else {
        definitions_binders(ds.drop_last()) + binders(ds.last().value)
    }
}

/// How many locals lowering the program can take at most.
pub open spec fn program_binders(p: ast::AstProgram) -> nat {
    definitions_binders(p.definitions) + match p.body {
        Some(e) => binders(e),
        None => 0,
    }
}

/// What lowering `p` gives: the duplicate name, or the first diagnostic of
/// a definition, or that of the first graph the graph pass refuses, or the
/// final expression's diagnostic; otherwise the lowered definitions and
/// expression, with every graph scheduled.
pub open spec fn lowers_program(p: ast::AstProgram, r: Result<Program, CompileError>) -> bool {
    match first_repeat(top_level_names(p)) {
        Some(name) => r matches Err(e) && e.0@ == duplicate_error(name),
        None => match lowered_definitions(p.definitions, 0) {
            Err(m) => r matches Err(e) && e.0@ == m,
            Ok((defs, n)) => match first_graph_error(p.graphs) {
                Some(m) => r matches Err(e) && e.0@ == m,
                None => match lowered_body(p.body, n) {
                    Err(m) => r matches Err(e) && e.0@ == m,
                    Ok(b) => r matches Ok(q) && defs_of(q.definitions@) == defs && option_term(q.body) == b
                        && q.graphs@.len() == p.graphs.len() && forall|i: int|
                        0 <= i < q.graphs@.len() ==> crate::graph::scheduled_from(#[trigger] q.graphs@[i], p.graphs[i]),
                },
            },
        },
    }
}

/// Lower the Scheme program: check that top-level names are distinct, lower
/// the definitions in order, schedule the graphs, then lower the final
/// expression. The first problem met is the one reported.
#[verifier::loop_isolation(false)]
#[verifier::rlimit(100)]
pub fn lower(program: ast::Program) -> (r: Result<Program, CompileError>)
    requires
        forall|i: int|
            0 <= i < program.graphs@.len() && first_repeat(top_level_names(program@)) is None && lowered_definitions(
                program@.definitions,
                0,
            ) is Ok && first_graph_error(program@.graphs.take(i)) is None && crate::graph::first_edge_error(
                (#[trigger] program.graphs@[i]).edges@,
                program.graphs@[i].inputs@,
            ) is None ==> program.graphs@[i].in_range(),
        program_binders(program@) <= usize::MAX,
    ensures
        lowers_program(program@, r),
{
    let ghost names_seq = top_level_names(program@);
    let mut names: Vec<String> = Vec::new();
    let mut i: usize = 0;
    while i < program.definitions.len()
        invariant
            i <= program.definitions.len(),
            names_of(names@) == program.definitions@.take(i as int).map_values(|d: ast::Definition| d.name@),
        decreases program.definitions.len() - i,
    {
        let ghost before = names@;
        names.push(program.definitions[i].name.clone());
        proof {
            assert(names_of(names@) =~= names_of(before).push(program.definitions@[i as int].name@));
            assert(program.definitions@.take(i + 1).map_values(|d: ast::Definition| d.name@) =~= program.definitions@.take(
                i as int,
            ).map_values(|d: ast::Definition| d.name@).push(program.definitions@[i as int].name@));
        }
        i = i + 1;
    }
    let mut j: usize = 0;
    proof { assert(program.definitions@.take(program.definitions.len() as int) =~= program.definitions@); }
    while j < program.graphs.len()
        invariant
            j <= program.graphs.len(),
            names_of(names@) == program.definitions@.map_values(|d: ast::Definition| d.name@) + program.graphs@.take(
                j as int,
            ).map_values(|g: ast::GraphDefinition| g.name@),
        decreases program.graphs.len() - j,
    {
        let ghost before = names@;
        names.push(program.graphs[j].name.clone());
        proof {
            assert(names_of(names@) =~= names_of(before).push(program.graphs@[j as int].name@));
            assert(program.graphs@.take(j + 1).map_values(|g: ast::GraphDefinition| g.name@) =~= program.graphs@.take(
                j as int,
            ).map_values(|g: ast::GraphDefinition| g.name@).push(program.graphs@[j as int].name@));
        }
        j = j + 1;
    }
    proof {
        assert(program.graphs@.take(program.graphs.len() as int) =~= program.graphs@);
        assert(names_of(names@) =~= names_seq);
    }
    let mut seen: Vec<String> = Vec::new();
    let mut k: usize = 0;
    while k < names.len()
        invariant
            k <= names.len(),
            names_of(names@) == names_seq,
            names_of(seen@) == names_seq.take(k as int),
            first_repeat(names_seq.take(k as int)) is None,
        decreases names.len() - k,
    {
        proof { assert(names_seq.take(k + 1).drop_last() =~= names_seq.take(k as int)); }
        if crate::optimize::mentions(&seen, &names[k]) {
            let mut message = String::new();
            push_str(&mut message, "duplicate top-level definition `");
            push_str(&mut message, names[k].as_str());
            push_str(&mut message, "`");
            proof {
                assert(message@ =~= duplicate_error(names_seq[k as int]));
                assert(names_seq.take(k + 1).last() == names_seq[k as int]);
                assert(first_repeat(names_seq.take(k + 1)) == Some(names_seq[k as int]));
                lemma_first_repeat_prefix(names_seq, k + 1);
            }
            return Err(CompileError(message));
        }
        let ghost before = seen@;
        seen.push(names[k].clone());
        proof { assert(names_of(seen@) =~= names_of(before).push(names_seq[k as int])); }
        k = k + 1;
    }
    proof { assert(names_seq.take(names.len() as int) =~= names_seq); }
    let mut lowerer = Lowerer { next_local: 0 };
    let ghost ds = ast::ast_defs_of(program.definitions@);
    let mut definitions: Vec<Definition> = Vec::new();
    let empty_params: Vec<String> = Vec::new();
    let empty_scope: Vec<(String, String)> = Vec::new();
    proof {
        assert(ds.take(0) =~= Seq::empty());
        assert(defs_of(definitions@) =~= Seq::empty());
        assert(pairs_of(empty_scope@) =~= Seq::empty());
        assert(names_of(empty_params@) =~= Seq::empty());
    }
    let mut d: usize = 0;
    while d < program.definitions.len()
        invariant
            d <= program.definitions.len(),
            ds == ast::ast_defs_of(program.definitions@),
            pairs_of(empty_scope@) == Seq::<(Seq<char>, Seq<char>)>::empty(),
            names_of(empty_params@) == Seq::<Seq<char>>::empty(),
            program_binders(program@) <= usize::MAX,
            lowerer.next_local <= definitions_binders(ds.take(d as int)),
            lowered_definitions(ds.take(d as int), 0) == Ok::<(Seq<DefTerm>, nat), Seq<char>>(
                (defs_of(definitions@), lowerer.next_local as nat),
            ),
        decreases program.definitions.len() - d,
    {
        proof {
            assert(ds.take(d + 1).drop_last() =~= ds.take(d as int));
            assert(program.definitions@.take(d + 1).drop_last() =~= program.definitions@.take(d as int));
            lemma_definitions_binders_prefix(ds, d + 1);
        }
        let definition = &program.definitions[d];
        let (params, body) = match &definition.value {
            ast::Expr::Lambda { params, body } => (params, &**body),
            value => (&empty_params, value),
        };
        proof {
            assert(definition_parts(definition.value@) == (names_of(params@), body@));
            assert(binders(definition.value@) == params@.len() + binders(body@));
        }
        let ghost before = lowerer.next_local;
        let (locals, scope) = lowerer.bind_parameters(params, &empty_scope);
        match lowerer.expr(body, &scope) {
            Ok(b) => {
                let nd = Definition { name: definition.name.clone(), params: locals, body: b };
                proof { assert(defs_of(definitions@.push(nd)) =~= defs_of(definitions@).push(nd@)); }
                definitions.push(nd);
            },
            Err(e) => {
                proof { lemma_lowered_definitions_error(ds, d + 1); }
                return Err(e);
            },
        }
        d = d + 1;
    }
    proof { assert(ds.take(program.definitions.len() as int) =~= ds); }
    let mut graphs: Vec<GraphDefinition> = Vec::new();
    let mut g: usize = 0;
    while g < program.graphs.len()
        invariant
            g <= program.graphs.len(),
            first_repeat(top_level_names(program@)) is None,
            lowered_definitions(program@.definitions, 0) is Ok,
            graphs@.len() == g,
            first_graph_error(program@.graphs.take(g as int)) is None,
            forall|i: int| 0 <= i < g ==> crate::graph::scheduled_from(#[trigger] graphs@[i], program.graphs@[i]@),
        decreases program.graphs.len() - g,
    {
        proof {
            assert(program@.graphs[g as int] == program.graphs@[g as int]@);
            assert(program@.graphs.take(g + 1).drop_last() =~= program@.graphs.take(g as int));
            assert(program@.graphs.take(g + 1).last() == program@.graphs[g as int]);
        }
        match crate::graph::lower_graph(&program.graphs[g]) {
            Ok(out) => {
                graphs.push(out);
            },
            Err(e) => {
                proof { lemma_first_graph_error_prefix(program@.graphs, g + 1); }
                return Err(e);
            },
        }
        g = g + 1;
    }
    proof {
        assert(program@.graphs.take(program@.graphs.len() as int) =~= program@.graphs);
    }
    let body = match &program.body {
        Some(e) => {
            proof { lemma_definitions_binders_prefix(ds, ds.len() as int); }
            proof { assert(ds.take(ds.len() as int) =~= ds); }
            match lowerer.expr(e, &empty_scope) {
                Ok(b) => Some(b),
                Err(err) => {
                    return Err(err);
                },
            }
        },
        None => None,
    };
    Ok(Program { definitions, graphs, body })
}

proof fn lemma_first_repeat_prefix(s: Seq<Seq<char>>, k: int)
    requires
        0 <= k <= s.len(),
        first_repeat(s.take(k)) is Some,
    ensures
        first_repeat(s) == first_repeat(s.take(k)),
    decreases s.len() - k,
{
    if k < s.len() {
        assert(s.take(k + 1).drop_last() =~= s.take(k));
        lemma_first_repeat_prefix(s, k + 1);
    } else {
        assert(s.take(k) =~= s);
    }
}

proof fn lemma_definitions_binders_prefix(s: Seq<ast::AstDef>, k: int)
    requires
        0 <= k <= s.len(),
    ensures
        definitions_binders(s.take(k)) <= definitions_binders(s),
    decreases s.len() - k,
{
    if k < s.len() {
        lemma_definitions_binders_prefix(s, k + 1);
        assert(s.take(k + 1).drop_last() =~= s.take(k));
    } else {
        assert(s.take(k) =~= s);
    }
}

proof fn lemma_lowered_definitions_error(s: Seq<ast::AstDef>, k: int)
    requires
        0 <= k <= s.len(),
        lowered_definitions(s.take(k), 0) is Err,
    ensures
        lowered_definitions(s, 0) == lowered_definitions(s.take(k), 0),
    decreases s.len() - k,
{
    if k < s.len() {
        assert(s.take(k + 1).drop_last() =~= s.take(k));
        lemma_lowered_definitions_error(s, k + 1);
    } else {
        assert(s.take(k) =~= s);
    }
}


/// How many locals lowering `e` can take, or `usize::MAX` when more.
#[verifier::loop_isolation(false)]
pub fn count_binders(e: &ast::Expr) -> (r: usize)
    ensures
        r == capped(binders(e@)),
    decreases e,
{
    match e {
        ast::Expr::Lambda { params, body } => add_capped(params.len(), count_binders(body)),
        ast::Expr::Apply { function, args } => {
            let mut total = count_binders(function);
            let mut i: usize = 0;
            proof { ast::lemma_asts_of(args@); assert(ast::asts_of(args@.take(0)) =~= Seq::empty()); }
            while i < args.len()
                invariant
                    i <= args.len(),
                    total == capped(binders(ast::ast_of(**function)) + binders_all(ast::asts_of(args@.take(i as int)))),
                decreases args.len() - i,
            {
                proof {
                    assert(decreases_to!(e => args@[i as int]));
                    assert(args@.take(i + 1).drop_last() =~= args@.take(i as int));
                    let pre = ast::asts_of(args@.take(i as int));
                    assert(pre.push(ast::ast_of(args@[i as int])).drop_last() =~= pre);
                }
                total = add_capped(total, count_binders(&args[i]));
                i = i + 1;
            }
            proof { assert(args@.take(args.len() as int) =~= args@); }
            total
        },
        ast::Expr::If { condition, then_branch, else_branch } => add_capped(
            add_capped(count_binders(condition), count_binders(then_branch)),
            count_binders(else_branch),
        ),
        ast::Expr::Let { bindings, body } => {
            let mut total = bindings.len();
            let mut i: usize = 0;
            proof { ast::lemma_ast_bindings_of(bindings@); assert(ast::ast_bindings_of(bindings@.take(0)) =~= Seq::empty()); }
            while i < bindings.len()
                invariant
                    i <= bindings.len(),
                    ast::ast_bindings_of(bindings@).len() == bindings@.len(),
                    total == capped(bindings@.len() + binders_bindings(ast::ast_bindings_of(bindings@.take(i as int)))),
                decreases bindings.len() - i,
            {
                proof {
                    assert(decreases_to!(e => bindings@[i as int].1));
                    assert(bindings@.take(i + 1).drop_last() =~= bindings@.take(i as int));
                    let pre = ast::ast_bindings_of(bindings@.take(i as int));
                    let b = bindings@[i as int];
                    assert(pre.push((b.0@, ast::ast_of(b.1))).drop_last() =~= pre);
                }
                total = add_capped(total, count_binders(&bindings[i].1));
                i = i + 1;
            }
            proof { assert(bindings@.take(bindings.len() as int) =~= bindings@); }
            add_capped(total, count_binders(body))
        },
        ast::Expr::Cons(a, b) => add_capped(count_binders(a), count_binders(b)),
        ast::Expr::Car(v) | ast::Expr::Cdr(v) | ast::Expr::Null(v) => count_binders(v),
        _ => 0,
    }
}

/// How many locals lowering `program` can take, or `usize::MAX` when more.
pub fn count_program_binders(program: &ast::Program) -> (r: usize)
    ensures
        r == capped(program_binders(program@)),
{
    let ghost ds = program@.definitions;
    let mut total: usize = 0;
    let mut d: usize = 0;
    proof { assert(ds.take(0) =~= Seq::empty()); }
    while d < program.definitions.len()
        invariant
            d <= program.definitions.len(),
            ds == program@.definitions,
            total == capped(definitions_binders(ds.take(d as int))),
        decreases program.definitions.len() - d,
    {
        proof { assert(ds.take(d + 1).drop_last() =~= ds.take(d as int)); }
        total = add_capped(total, count_binders(&program.definitions[d].value));
        d = d + 1;
    }
    proof { assert(ds.take(ds.len() as int) =~= ds); }
    match &program.body {
        Some(b) => add_capped(total, count_binders(b)),
        None => total,
    }
}

}
