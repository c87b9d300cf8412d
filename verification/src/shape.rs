//! Shape selection for recognized associative reductions.
//!
//! HVM discovers parallelism from the *shape* of the interaction net rather
//! than from annotations, so the clearest lever a compiler has over
//! parallelism is the shape of the code it emits. This pass recognizes a
//! class of counted reductions and re-emits one in a chosen shape:
//!
//! * `AsWritten` -- leave the chain alone.
//! * `Balanced` -- re-associate the range into a binary tree.
//! * `Chunked(k)` -- split the range into `k` chain segments and combine
//!   those with a balanced tree.
//!
//! The recognized form is a counted reduction whose combiner is associative
//! and commutative under wrapping arithmetic:
//!
//! ```text
//! (define (f i n acc)                     (define (f k acc)
//!   (if (> i n)                             (if (= k 0)
//!       acc                                     acc
//!       (f (+ i 1) n (OP acc G))))              (f (- k 1) (OP acc G))))
//! ```
//!
//! Re-association is legal because the target's arithmetic wraps modulo
//! 2^24, which is a ring: `+` and `*` are associative and commutative there.
//! `-` and truncating `/` are not, so they are not whitelisted, and a modular
//! accumulator such as `(mod- (+ acc G) M)` is refused because two different
//! moduli do not re-associate.
//!
//! A call site is rewritten only when it is worth it: below
//! [`MIN_RESHAPE_SPAN`] iterations only reductions whose element contains a
//! call are reshaped.
use crate::ir::{
    option_term, Program, ProgramTerm,
    lemma_binding_terms_of, lemma_terms_of,
    binding_terms_of, copy_bindings, copy_expr, copy_names, defs_of, names_of, term_of, terms_of,
    DefTerm, Definition, Expr, Primitive, Term,
};
use crate::text;
use vstd::prelude::*;
use vstd::string::StringExecFns;

verus! {

/// Below this many iterations a reduction is only reshaped if its element
/// contains a call, where the combine nodes are lost in the per-element work.
pub const MIN_RESHAPE_SPAN: i64 = 1024i64;

/// Which shape to emit for a recognized reduction.
#[derive(Debug, Clone, Copy, PartialEq, Eq)]
pub enum Shape {
    /// Leave recognized reductions exactly as written.
    AsWritten,
    /// Re-associate the whole range into a balanced binary tree.
    Balanced,
    /// `k` chain segments combined by a balanced tree.
    Chunked(u32),
}

/// The shape a command-line spec names: `asis`, `balanced`, or `chunked:k`
/// with `k` at least one.
pub open spec fn parsed_shape(s: Seq<char>) -> Option<Shape> {
    if s == "asis"@ {
        Some(Shape::AsWritten)
    } else if s == "balanced"@ {
        Some(Shape::Balanced)
    } else if s.len() >= 8 && s.take(8) == "chunked:"@ {
        match text::parse_u32(s.skip(8)) {
            Some(k) => if k >= 1 {
                Some(Shape::Chunked(k))
            } else {
                None
            },
            None => None,
        }
    } else {
        None
    }
}

/// Whether two character sequences are equal.
fn chars_equal(a: &Vec<char>, b: &Vec<char>) -> (r: bool)
    ensures
        r == (a@ == b@),
{
    if a.len() != b.len() {
        return false;
    }
    let mut i: usize = 0;
    while i < a.len()
        invariant
            a.len() == b.len(),
            i <= a.len(),
            forall|j: int| 0 <= j < i ==> a@[j] == b@[j],
        decreases a.len() - i,
    {
        if a[i] != b[i] {
            return false;
        }
        i = i + 1;
    }
    assert(a@ =~= b@);
    true
}

impl Shape {
    /// How the shape is written on the command line.
    pub open spec fn text_of(self) -> Seq<char> {
        match self {
            Shape::AsWritten => "asis"@,
            Shape::Balanced => "balanced"@,
            Shape::Chunked(k) => "chunked:"@ + text::decimal(k as nat),
        }
    }

    /// Reads a shape spec: `asis`, `balanced`, or `chunked:k` with `k >= 1`.
    pub fn parse(spec: &str) -> (r: Option<Shape>)
        ensures
            r == parsed_shape(spec@),
    {
        let cs = text::chars_of(spec);
        if chars_equal(&cs, &text::chars_of("asis")) {
            return Some(Shape::AsWritten);
        }
        if chars_equal(&cs, &text::chars_of("balanced")) {
            return Some(Shape::Balanced);
        }
        let prefix = text::chars_of("chunked:");
        proof { reveal_strlit("chunked:"); }
        if cs.len() < 8 {
            return None;
        }
        let mut head: Vec<char> = Vec::new();
        let mut i: usize = 0;
        while i < 8
            invariant
                i <= 8,
                cs.len() >= 8,
                head@ == cs@.take(i as int),
            decreases 8 - i,
        {
            head.push(cs[i]);
            proof { assert(cs@.take(i + 1) =~= cs@.take(i as int).push(cs@[i as int])); }
            i = i + 1;
        }
        if !chars_equal(&head, &prefix) {
            return None;
        }
        let mut rest: Vec<char> = Vec::new();
        let mut j: usize = 8;
        while j < cs.len()
            invariant
                8 <= j <= cs.len(),
                rest@ == cs@.subrange(8, j as int),
            decreases cs.len() - j,
        {
            rest.push(cs[j]);
            proof { assert(cs@.subrange(8, j + 1) =~= cs@.subrange(8, j as int).push(cs@[j as int])); }
            j = j + 1;
        }
        proof { assert(cs@.subrange(8, cs.len() as int) =~= cs@.skip(8)); }
        match text::parse_u32_text(rest.as_slice()) {
            Some(k) => if k >= 1 {
                Some(Shape::Chunked(k))
            } else {
                None
            },
            None => None,
        }
    }

    /// How the shape is written on the command line.
    pub fn to_text(&self) -> (r: String)
        ensures
            r@ == self.text_of(),
    {
        match self {
            Shape::AsWritten => String::from_str("asis"),
            Shape::Balanced => String::from_str("balanced"),
            Shape::Chunked(k) => {
                let mut s = String::from_str("chunked:");
                text::push_decimal(&mut s, *k as u64);
                s
            },
        }
    }
}

/// Reading back how a shape is written gives the same shape.
pub proof fn lemma_shape_text_round_trip(shape: Shape)
    requires
        shape matches Shape::Chunked(k) ==> k >= 1,
    ensures
        parsed_shape(shape.text_of()) == Some(shape),
{
    reveal_strlit("asis");
    reveal_strlit("balanced");
    reveal_strlit("chunked:");
    match shape {
        Shape::AsWritten => {},
        Shape::Balanced => {
            assert("balanced"@ != "asis"@);
        },
        Shape::Chunked(k) => {
            let t = "chunked:"@ + text::decimal(k as nat);
            text::lemma_decimal_digits(k as nat);
            assert(t.len() > 8);
            assert(t[4] == 'k');
            assert(t != "asis"@);
            assert(t != "balanced"@);
            assert(t.take(8) =~= "chunked:"@);
            assert(t.skip(8) =~= text::decimal(k as nat));
            let d = text::decimal(k as nat);
            assert(text::is_digit(d[0]));
            assert(d[0] != '+');
        },
    }
}


/// The comparison in the guard, which is the *stop* condition: the `then`
/// branch is the accumulator, so iteration continues while this is false.
#[derive(Debug, Clone, Copy, PartialEq, Eq)]
pub enum Guard {
    Eq,
    Lt,
    Le,
    Gt,
    Ge,
}

/// What the counter is compared against in the guard.
#[derive(Debug, Clone, Copy, PartialEq, Eq)]
pub enum Bound {
    Literal(i64),
    /// Index into the reduction's parameters.
    Param(usize),
}

/// A recognized reduction, decomposed into the pieces a shape rewrite needs.
pub struct Reduction {
    pub name: String,
    pub params: Vec<String>,
    /// Parameter index of the counter and of the accumulator.
    pub counter: usize,
    pub accumulator: usize,
    pub bound: Bound,
    pub guard: Guard,
    /// Counter step per iteration: `+1` or `-1`.
    pub delta: i64,
    /// The associative, commutative combiner. Only a bare `+` or `*`.
    pub combiner: Primitive,
    /// The per-element expression, which may read only the counter.
    pub element: Expr,
}

/// The mathematical value of a [`Reduction`].
pub struct RedTerm {
    pub name: Seq<char>,
    pub params: Seq<Seq<char>>,
    pub counter: int,
    pub accumulator: int,
    pub bound: Bound,
    pub guard: Guard,
    pub delta: int,
    pub combiner: Primitive,
    pub element: Term,
}

impl View for Reduction {
    type V = RedTerm;

    open spec fn view(&self) -> RedTerm {
        RedTerm {
            name: self.name@,
            params: names_of(self.params@),
            counter: self.counter as int,
            accumulator: self.accumulator as int,
            bound: self.bound,
            guard: self.guard,
            delta: self.delta as int,
            combiner: self.combiner,
            element: self.element@,
        }
    }
}

pub open spec fn var_name(t: Term) -> Option<Seq<char>> {
    match t {
        Term::Var(name) => Some(name),
        _ => None,
    }
}

pub open spec fn number_value(t: Term) -> Option<i64> {
    match t {
        Term::Number(n) => Some(n),
        _ => None,
    }
}

/// `(+ counter 1)` steps by one and `(- counter 1)` by minus one.
pub open spec fn step(t: Term, counter: Seq<char>) -> Option<int> {
    match t {
        Term::Primitive { op, args } => if args.len() == 2 && var_name(args[0]) == Some(counter)
            && number_value(args[1]) == Some(1i64) {
            match op {
                Primitive::Add => Some(1),
                Primitive::Sub => Some(-1),
                _ => None,
            }
        } else {
            None
        },
        _ => None,
    }
}

/// A bare `(OP acc X)` with `OP` one of `+` or `*`: the combiner and `X`.
pub open spec fn combiner_term(t: Term, accumulator: Seq<char>) -> Option<(Primitive, Term)> {
    match t {
        Term::Primitive { op, args } => if (op is Add || op is Mul) && args.len() == 2 && var_name(
            args[0],
        ) == Some(accumulator) {
            Some((op, args[1]))
        } else {
            None
        },
        _ => None,
    }
}

/// The first index holding `name`.
pub open spec fn position(s: Seq<Seq<char>>, name: Seq<char>) -> Option<int>
    decreases s.len(),
{
    if s.len() == 0 {
        None
    } else {
        match position(s.drop_last(), name) {
            Some(i) => Some(i),
            None => if s.last() == name {
                Some(s.len() - 1)
            } else {
                None
            },
        }
    }
}

/// Scans the first `k` argument positions other than the accumulator: every
/// one passes its parameter through unchanged, except exactly one (so far at
/// most one) that steps its parameter. `None` when the scan fails; otherwise
/// the stepping position and its step, if one was seen.
pub open spec fn counter_scan(params: Seq<Seq<char>>, args: Seq<Term>, accumulator: int, k: int) -> Option<
    Option<(int, int)>,
>
    decreases k,
{
    if k <= 0 {
        Some(None)
    } else {
        match counter_scan(params, args, accumulator, k - 1) {
            None => None,
            Some(seen) => {
                let i = k - 1;
                if i == accumulator {
                    Some(seen)
                } else {
                    match step(args[i], params[i]) {
                        Some(delta) => if seen is Some {
                            None
                        } else {
                            Some(Some((i, delta)))
                        },
                        None => if var_name(args[i]) == Some(params[i]) {
                            Some(seen)
                        } else {
                            None
                        },
                    }
                }
            },
        }
    }
}

pub open spec fn guard_of(op: Primitive) -> Option<Guard> {
    match op {
        Primitive::Eq => Some(Guard::Eq),
        Primitive::Lt => Some(Guard::Lt),
        Primitive::Le => Some(Guard::Le),
        Primitive::Gt => Some(Guard::Gt),
        Primitive::Ge => Some(Guard::Ge),
        _ => None,
    }
}

/// The guard's right-hand side: a literal, or a parameter other than the
/// counter and the accumulator.
pub open spec fn bound_of(t: Term, params: Seq<Seq<char>>, counter: int, accumulator: int) -> Option<
    Bound,
> {
    match t {
        Term::Number(v) => Some(Bound::Literal(v)),
        Term::Var(name) => match position(params, name) {
            Some(i) => if i != counter && i != accumulator {
                Some(Bound::Param(i as usize))
            } else {
                None
            },
            None => None,
        },
        _ => None,
    }
}

/// Every variable `t` reads is `name`.
pub open spec fn reads_only(t: Term, name: Seq<char>) -> bool
    decreases t,
{
    match t {
        Term::Var(v) => v == name,
        Term::Number(_) | Term::Bool(_) | Term::Nil => true,
        Term::Primitive { args, .. } | Term::Call { args, .. } => reads_only_all(args, name),
        Term::If { condition, then_branch, else_branch } => reads_only(*condition, name)
            && reads_only(*then_branch, name) && reads_only(*else_branch, name),
        Term::Let { bindings, body } => reads_only_bindings(bindings, name) && reads_only(
            *body,
            name,
        ),
        Term::Cons(a, b) => reads_only(*a, name) && reads_only(*b, name),
        Term::Car(a) | Term::Cdr(a) | Term::Null(a) => reads_only(*a, name),
    }
}

pub open spec fn reads_only_all(s: Seq<Term>, name: Seq<char>) -> bool
    decreases s,
{
    s.len() == 0 || (reads_only_all(s.drop_last(), name) && reads_only(s.last(), name))
}

pub open spec fn reads_only_bindings(s: Seq<(Seq<char>, Term)>, name: Seq<char>) -> bool
    decreases s,
{
    s.len() == 0 || (reads_only_bindings(s.drop_last(), name) && reads_only(s.last().1, name))
}

/// Some call in `t` names `name`.
pub open spec fn calls(t: Term, name: Seq<char>) -> bool
    decreases t,
{
    match t {
        Term::Call { callee, args } => callee == name || calls_any(args, name),
        Term::Primitive { args, .. } => calls_any(args, name),
        Term::If { condition, then_branch, else_branch } => calls(*condition, name) || calls(
            *then_branch,
            name,
        ) || calls(*else_branch, name),
        Term::Let { bindings, body } => calls_in_bindings(bindings, name) || calls(*body, name),
        Term::Cons(a, b) => calls(*a, name) || calls(*b, name),
        Term::Car(a) | Term::Cdr(a) | Term::Null(a) => calls(*a, name),
        Term::Number(_) | Term::Bool(_) | Term::Var(_) | Term::Nil => false,
    }
}

pub open spec fn calls_any(s: Seq<Term>, name: Seq<char>) -> bool
    decreases s,
{
    s.len() > 0 && (calls_any(s.drop_last(), name) || calls(s.last(), name))
}

pub open spec fn calls_in_bindings(s: Seq<(Seq<char>, Term)>, name: Seq<char>) -> bool
    decreases s,
{
    s.len() > 0 && (calls_in_bindings(s.drop_last(), name) || calls(s.last().1, name))
}

/// Whether `t` contains any call.
pub open spec fn has_call(t: Term) -> bool
    decreases t,
{
    match t {
        Term::Call { .. } => true,
        Term::Primitive { args, .. } => has_call_any(args),
        Term::If { condition, then_branch, else_branch } => has_call(*condition) || has_call(
            *then_branch,
        ) || has_call(*else_branch),
        Term::Let { bindings, body } => has_call_in_bindings(bindings) || has_call(*body),
        Term::Cons(a, b) => has_call(*a) || has_call(*b),
        Term::Car(a) | Term::Cdr(a) | Term::Null(a) => has_call(*a),
        Term::Number(_) | Term::Bool(_) | Term::Var(_) | Term::Nil => false,
    }
}

pub open spec fn has_call_any(s: Seq<Term>) -> bool
    decreases s,
{
    s.len() > 0 && (has_call_any(s.drop_last()) || has_call(s.last()))
}

pub open spec fn has_call_in_bindings(s: Seq<(Seq<char>, Term)>) -> bool
    decreases s,
{
    s.len() > 0 && (has_call_in_bindings(s.drop_last()) || has_call(s.last().1))
}

/// The counted-reduction idiom that `d` matches, if it matches one.
pub open spec fn recognized(d: DefTerm) -> Option<RedTerm> {
    if d.params.len() < 2 {
        None
    } else {
        match d.body {
            Term::If { condition, then_branch, else_branch } => match *else_branch {
                Term::Call { callee, args } => if callee != d.name || args.len() != d.params.len() {
                    None
                } else {
                    match var_name(*then_branch) {
                        None => None,
                        Some(acc_name) => match position(d.params, acc_name) {
                            None => None,
                            Some(acc) => match combiner_term(args[acc], d.params[acc]) {
                                None => None,
                                Some((combiner, element)) => match counter_scan(
                                    d.params,
                                    args,
                                    acc,
                                    d.params.len() as int,
                                ) {
                                    Some(Some((counter, delta))) => match *condition {
                                        Term::Primitive { op, args: sides } => match guard_of(op) {
                                            None => None,
                                            Some(guard) => if sides.len() != 2 || var_name(sides[0])
                                                != Some(d.params[counter]) {
                                                None
                                            } else {
                                                match bound_of(sides[1], d.params, counter, acc) {
                                                    None => None,
                                                    Some(bound) => if !reads_only(
                                                        element,
                                                        d.params[counter],
                                                    ) || calls(element, d.name) {
                                                        None
                                                    } else {
                                                        Some(
                                                            RedTerm {
                                                                name: d.name,
                                                                params: d.params,
                                                                counter,
                                                                accumulator: acc,
                                                                bound,
                                                                guard,
                                                                delta,
                                                                combiner,
                                                                element,
                                                            },
                                                        )
                                                    },
                                                }
                                            },
                                        },
                                        _ => None,
                                    },
                                    _ => None,
                                },
                            },
                        },
                    }
                },
                _ => None,
            },
            _ => None,
        }
    }
}


fn as_var(e: &Expr) -> (r: Option<&String>)
    ensures
        r matches Some(n) ==> var_name(e@) == Some(n@),
        r is None ==> var_name(e@) is None,
{
    match e {
        Expr::Var(name) => Some(name),
        _ => None,
    }
}

fn as_int(e: &Expr) -> (r: Option<i64>)
    ensures
        r == number_value(e@),
{
    match e {
        Expr::Number(n) => Some(*n),
        _ => None,
    }
}

fn is_var_named(e: &Expr, name: &String) -> (r: bool)
    ensures
        r == (var_name(e@) == Some(name@)),
{
    match as_var(e) {
        Some(v) => text::same_text(v, name),
        None => false,
    }
}

/// `(+ counter 1)` or `(- counter 1)`; returns the step.
fn step_of(e: &Expr, counter: &String) -> (r: Option<i64>)
    ensures
        r matches Some(d) ==> step(e@, counter@) == Some(d as int),
        r is None ==> step(e@, counter@) is None,
{
    match e {
        Expr::Primitive { op, args } => {
            proof { lemma_terms_of(args@); }
            if args.len() != 2 {
                return None;
            }
            if !is_var_named(&args[0], counter) {
                return None;
            }
            match as_int(&args[1]) {
                Some(one) => if one != 1 {
                    return None;
                },
                None => { return None; },
            }
            match op {
                Primitive::Add => Some(1),
                Primitive::Sub => Some(-1),
                _ => None,
            }
        },
        _ => None,
    }
}

/// Decompose a bare `(OP acc X)`. A wrapped combiner is refused.
fn combiner_of(e: &Expr, accumulator: &String) -> (r: Option<(Primitive, Expr)>)
    ensures
        r matches Some((op, x)) ==> combiner_term(e@, accumulator@) == Some((op, x@)),
        r is None ==> combiner_term(e@, accumulator@) is None,
{
    match e {
        Expr::Primitive { op, args } => {
            proof { lemma_terms_of(args@); }
            match op {
                Primitive::Add | Primitive::Mul => {},
                _ => { return None; },
            }
            if args.len() != 2 || !is_var_named(&args[0], accumulator) {
                return None;
            }
            Some((*op, copy_expr(&args[1])))
        },
        _ => None,
    }
}

fn position_of(params: &Vec<String>, name: &String) -> (r: Option<usize>)
    ensures
        r matches Some(i) ==> position(names_of(params@), name@) == Some(i as int),
        r is None ==> position(names_of(params@), name@) is None,
{
    let mut i: usize = 0;
    while i < params.len()
        invariant
            i <= params.len(),
            position(names_of(params@.take(i as int)), name@) is None,
        decreases params.len() - i,
    {
        proof {
            assert(names_of(params@.take(i + 1)).drop_last() =~= names_of(params@.take(i as int)));
        }
        if text::same_text(&params[i], name) {
            proof {
                assert(names_of(params@.take(i + 1)) =~= names_of(params@).take(i + 1));
                lemma_position_prefix(names_of(params@), name@, i + 1);
            }
            return Some(i);
        }
        i = i + 1;
    }
    proof { assert(params@.take(params.len() as int) =~= params@); }
    None
}

/// A position names an index holding the name.
pub proof fn lemma_position_bound(s: Seq<Seq<char>>, name: Seq<char>)
    ensures
        position(s, name) matches Some(i) ==> 0 <= i < s.len() && s[i] == name,
    decreases s.len(),
{
    if s.len() > 0 {
        lemma_position_bound(s.drop_last(), name);
    }
}

/// A position found in a prefix is the position in the whole sequence.
proof fn lemma_position_prefix(s: Seq<Seq<char>>, name: Seq<char>, k: int)
    requires
        0 <= k <= s.len(),
        position(s.take(k), name) is Some,
    ensures
        position(s, name) == position(s.take(k), name),
    decreases s.len() - k,
{
    if k < s.len() {
        assert(s.take(k + 1).drop_last() =~= s.take(k));
        lemma_position_prefix(s, name, k + 1);
    } else {
        assert(s.take(k) =~= s);
    }
}

/// Whether every variable `e` reads is `name`.
#[verifier::loop_isolation(false)]
pub fn reads_only_name(e: &Expr, name: &String) -> (r: bool)
    ensures
        r == reads_only(e@, name@),
    decreases e,
{
    match e {
        Expr::Var(v) => text::same_text(v, name),
        Expr::Number(_) | Expr::Bool(_) | Expr::Nil => true,
        Expr::Primitive { args, .. } | Expr::Call { args, .. } => {
            let mut i: usize = 0;
            while i < args.len()
                invariant
                    i <= args.len(),
                    reads_only_all(terms_of(args@.take(i as int)), name@),
                decreases args.len() - i,
            {
                proof {
                    assert(decreases_to!(e => args@[i as int]));
                    assert(args@.take(i + 1).drop_last() =~= args@.take(i as int));
                    let pre = terms_of(args@.take(i as int));
                    assert(pre.push(term_of(args@[i as int])).drop_last() =~= pre);
                }
                if !reads_only_name(&args[i], name) {
                    proof { lemma_terms_of(args@); lemma_terms_prefix(args@, i + 1); lemma_reads_only_all_prefix(terms_of(args@), name@, i + 1); }
                    return false;
                }
                i = i + 1;
            }
            proof { assert(args@.take(args.len() as int) =~= args@); }
            true
        },
        Expr::If { condition, then_branch, else_branch } => reads_only_name(condition, name)
            && reads_only_name(then_branch, name) && reads_only_name(else_branch, name),
        Expr::Let { bindings, body } => {
            let mut i: usize = 0;
            while i < bindings.len()
                invariant
                    i <= bindings.len(),
                    reads_only_bindings(binding_terms_of(bindings@.take(i as int)), name@),
                decreases bindings.len() - i,
            {
                proof {
                    assert(decreases_to!(e => bindings@[i as int].1));
                    assert(bindings@.take(i + 1).drop_last() =~= bindings@.take(i as int));
                    let pre = binding_terms_of(bindings@.take(i as int));
                    let b = bindings@[i as int];
                    assert(pre.push((b.0@, term_of(b.1))).drop_last() =~= pre);
                }
                if !reads_only_name(&bindings[i].1, name) {
                    proof {
                        lemma_binding_terms_of(bindings@);
                        lemma_binding_terms_prefix(bindings@, i + 1);
                        lemma_reads_only_bindings_prefix(binding_terms_of(bindings@), name@, i + 1);
                    }
                    return false;
                }
                i = i + 1;
            }
            proof { assert(bindings@.take(bindings.len() as int) =~= bindings@); }
            reads_only_name(body, name)
        },
        Expr::Cons(a, b) => reads_only_name(a, name) && reads_only_name(b, name),
        Expr::Car(a) | Expr::Cdr(a) | Expr::Null(a) => reads_only_name(a, name),
    }
}

/// The terms of a prefix are the prefix of the terms.
pub proof fn lemma_terms_prefix(s: Seq<Expr>, k: int)
    requires
        0 <= k <= s.len(),
    ensures
        terms_of(s.take(k)) == terms_of(s).take(k),
    decreases s.len() - k,
{
    lemma_terms_of(s);
    lemma_terms_of(s.take(k));
    assert(terms_of(s.take(k)) =~= terms_of(s).take(k));
}

pub proof fn lemma_binding_terms_prefix(s: Seq<(String, Expr)>, k: int)
    requires
        0 <= k <= s.len(),
    ensures
        binding_terms_of(s.take(k)) == binding_terms_of(s).take(k),
{
    lemma_binding_terms_of(s);
    lemma_binding_terms_of(s.take(k));
    assert(binding_terms_of(s.take(k)) =~= binding_terms_of(s).take(k));
}

proof fn lemma_reads_only_all_prefix(s: Seq<Term>, name: Seq<char>, k: int)
    requires
        0 <= k <= s.len(),
        !reads_only_all(s.take(k), name),
    ensures
        !reads_only_all(s, name),
    decreases s.len() - k,
{
    if k < s.len() {
        assert(s.take(k + 1).drop_last() =~= s.take(k));
        lemma_reads_only_all_prefix(s, name, k + 1);
    } else {
        assert(s.take(k) =~= s);
    }
}

proof fn lemma_reads_only_bindings_prefix(s: Seq<(Seq<char>, Term)>, name: Seq<char>, k: int)
    requires
        0 <= k <= s.len(),
        !reads_only_bindings(s.take(k), name),
    ensures
        !reads_only_bindings(s, name),
    decreases s.len() - k,
{
    if k < s.len() {
        assert(s.take(k + 1).drop_last() =~= s.take(k));
        lemma_reads_only_bindings_prefix(s, name, k + 1);
    } else {
        assert(s.take(k) =~= s);
    }
}


proof fn lemma_calls_any_prefix(s: Seq<Term>, name: Seq<char>, k: int)
    requires
        0 <= k <= s.len(),
        calls_any(s.take(k), name),
    ensures
        calls_any(s, name),
    decreases s.len() - k,
{
    if k < s.len() {
        assert(s.take(k + 1).drop_last() =~= s.take(k));
        lemma_calls_any_prefix(s, name, k + 1);
    } else {
        assert(s.take(k) =~= s);
    }
}

proof fn lemma_calls_in_bindings_prefix(s: Seq<(Seq<char>, Term)>, name: Seq<char>, k: int)
    requires
        0 <= k <= s.len(),
        calls_in_bindings(s.take(k), name),
    ensures
        calls_in_bindings(s, name),
    decreases s.len() - k,
{
    if k < s.len() {
        assert(s.take(k + 1).drop_last() =~= s.take(k));
        lemma_calls_in_bindings_prefix(s, name, k + 1);
    } else {
        assert(s.take(k) =~= s);
    }
}

proof fn lemma_has_call_any_prefix(s: Seq<Term>, k: int)
    requires
        0 <= k <= s.len(),
        has_call_any(s.take(k)),
    ensures
        has_call_any(s),
    decreases s.len() - k,
{
    if k < s.len() {
        assert(s.take(k + 1).drop_last() =~= s.take(k));
        lemma_has_call_any_prefix(s, k + 1);
    } else {
        assert(s.take(k) =~= s);
    }
}

proof fn lemma_has_call_in_bindings_prefix(s: Seq<(Seq<char>, Term)>, k: int)
    requires
        0 <= k <= s.len(),
        has_call_in_bindings(s.take(k)),
    ensures
        has_call_in_bindings(s),
    decreases s.len() - k,
{
    if k < s.len() {
        assert(s.take(k + 1).drop_last() =~= s.take(k));
        lemma_has_call_in_bindings_prefix(s, k + 1);
    } else {
        assert(s.take(k) =~= s);
    }
}

/// Whether some call in `e` names `name`.
#[verifier::loop_isolation(false)]
pub fn calls_name(e: &Expr, name: &String) -> (r: bool)
    ensures
        r == calls(e@, name@),
    decreases e,
{
    match e {
        Expr::Call { callee, args } => {
            if text::same_text(callee, name) {
                return true;
            }
            let mut i: usize = 0;
            while i < args.len()
                invariant
                    i <= args.len(),
                    !calls_any(terms_of(args@.take(i as int)), name@),
                decreases args.len() - i,
            {
                proof {
                    assert(decreases_to!(e => args@[i as int]));
                    assert(args@.take(i + 1).drop_last() =~= args@.take(i as int));
                    let pre = terms_of(args@.take(i as int));
                    assert(pre.push(term_of(args@[i as int])).drop_last() =~= pre);
                }
                if calls_name(&args[i], name) {
                    proof { lemma_terms_of(args@); lemma_terms_prefix(args@, i + 1); lemma_calls_any_prefix(terms_of(args@), name@, i + 1); }
                    return true;
                }
                i = i + 1;
            }
            proof { assert(args@.take(args.len() as int) =~= args@); }
            false
        },
        Expr::Primitive { args, .. } => {
            let mut i: usize = 0;
            while i < args.len()
                invariant
                    i <= args.len(),
                    !calls_any(terms_of(args@.take(i as int)), name@),
                decreases args.len() - i,
            {
                proof {
                    assert(decreases_to!(e => args@[i as int]));
                    assert(args@.take(i + 1).drop_last() =~= args@.take(i as int));
                    let pre = terms_of(args@.take(i as int));
                    assert(pre.push(term_of(args@[i as int])).drop_last() =~= pre);
                }
                if calls_name(&args[i], name) {
                    proof { lemma_terms_of(args@); lemma_terms_prefix(args@, i + 1); lemma_calls_any_prefix(terms_of(args@), name@, i + 1); }
                    return true;
                }
                i = i + 1;
            }
            proof { assert(args@.take(args.len() as int) =~= args@); }
            false
        },
        Expr::If { condition, then_branch, else_branch } => calls_name(condition, name)
            || calls_name(then_branch, name) || calls_name(else_branch, name),
        Expr::Let { bindings, body } => {
            let mut i: usize = 0;
            while i < bindings.len()
                invariant
                    i <= bindings.len(),
                    !calls_in_bindings(binding_terms_of(bindings@.take(i as int)), name@),
                decreases bindings.len() - i,
            {
                proof {
                    assert(decreases_to!(e => bindings@[i as int].1));
                    assert(bindings@.take(i + 1).drop_last() =~= bindings@.take(i as int));
                    let pre = binding_terms_of(bindings@.take(i as int));
                    let b = bindings@[i as int];
                    assert(pre.push((b.0@, term_of(b.1))).drop_last() =~= pre);
                }
                if calls_name(&bindings[i].1, name) {
                    proof {
                        lemma_binding_terms_of(bindings@);
                        lemma_binding_terms_prefix(bindings@, i + 1);
                        lemma_calls_in_bindings_prefix(binding_terms_of(bindings@), name@, i + 1);
                    }
                    return true;
                }
                i = i + 1;
            }
            proof { assert(bindings@.take(bindings.len() as int) =~= bindings@); }
            calls_name(body, name)
        },
        Expr::Cons(a, b) => calls_name(a, name) || calls_name(b, name),
        Expr::Car(a) | Expr::Cdr(a) | Expr::Null(a) => calls_name(a, name),
        Expr::Number(_) | Expr::Bool(_) | Expr::Var(_) | Expr::Nil => false,
    }
}

/// Whether `e` contains any call.
#[verifier::loop_isolation(false)]
pub fn contains_call(e: &Expr) -> (r: bool)
    ensures
        r == has_call(e@),
    decreases e,
{
    match e {
        Expr::Call { .. } => true,
        Expr::Primitive { args, .. } => {
            let mut i: usize = 0;
            while i < args.len()
                invariant
                    i <= args.len(),
                    !has_call_any(terms_of(args@.take(i as int))),
                decreases args.len() - i,
            {
                proof {
                    assert(decreases_to!(e => args@[i as int]));
                    assert(args@.take(i + 1).drop_last() =~= args@.take(i as int));
                    let pre = terms_of(args@.take(i as int));
                    assert(pre.push(term_of(args@[i as int])).drop_last() =~= pre);
                }
                if contains_call(&args[i]) {
                    proof { lemma_terms_of(args@); lemma_terms_prefix(args@, i + 1); lemma_has_call_any_prefix(terms_of(args@), i + 1); }
                    return true;
                }
                i = i + 1;
            }
            proof { assert(args@.take(args.len() as int) =~= args@); }
            false
        },
        Expr::If { condition, then_branch, else_branch } => contains_call(condition)
            || contains_call(then_branch) || contains_call(else_branch),
        Expr::Let { bindings, body } => {
            let mut i: usize = 0;
            while i < bindings.len()
                invariant
                    i <= bindings.len(),
                    !has_call_in_bindings(binding_terms_of(bindings@.take(i as int))),
                decreases bindings.len() - i,
            {
                proof {
                    assert(decreases_to!(e => bindings@[i as int].1));
                    assert(bindings@.take(i + 1).drop_last() =~= bindings@.take(i as int));
                    let pre = binding_terms_of(bindings@.take(i as int));
                    let b = bindings@[i as int];
                    assert(pre.push((b.0@, term_of(b.1))).drop_last() =~= pre);
                }
                if contains_call(&bindings[i].1) {
                    proof {
                        lemma_binding_terms_of(bindings@);
                        lemma_binding_terms_prefix(bindings@, i + 1);
                        lemma_has_call_in_bindings_prefix(binding_terms_of(bindings@), i + 1);
                    }
                    return true;
                }
                i = i + 1;
            }
            proof { assert(bindings@.take(bindings.len() as int) =~= bindings@); }
            contains_call(body)
        },
        Expr::Cons(a, b) => contains_call(a) || contains_call(b),
        Expr::Car(a) | Expr::Cdr(a) | Expr::Null(a) => contains_call(a),
        Expr::Number(_) | Expr::Bool(_) | Expr::Var(_) | Expr::Nil => false,
    }
}


proof fn lemma_scan_failure_persists(params: Seq<Seq<char>>, args: Seq<Term>, acc: int, k: int, n: int)
    requires
        0 <= k <= n,
        counter_scan(params, args, acc, k) is None,
    ensures
        counter_scan(params, args, acc, n) is None,
    decreases n - k,
{
    if k < n {
        lemma_scan_failure_persists(params, args, acc, k + 1, n);
    }
}

/// Match the counted-reduction idiom, or `None` if this definition is not one.
#[verifier::loop_isolation(false)]
pub fn recognize(definition: &Definition) -> (r: Option<Reduction>)
    ensures
        r matches Some(red) ==> recognized(definition@) == Some(red@) && red.wf(),
        r is None ==> recognized(definition@) is None,
{
    let params = &definition.params;
    if params.len() < 2 {
        return None;
    }
    let (condition, then_branch, else_branch) = match &definition.body {
        Expr::If { condition, then_branch, else_branch } => (condition, then_branch, else_branch),
        _ => { return None; },
    };
    let (callee, args) = match &**else_branch {
        Expr::Call { callee, args } => (callee, args),
        _ => {
            proof { assert(!(term_of(**else_branch) is Call)); }
            return None;
        },
    };
    proof { lemma_terms_of(args@); }
    if !text::same_text(callee, &definition.name) || args.len() != params.len() {
        return None;
    }
    let acc_name = match as_var(then_branch) {
        Some(n) => n,
        None => { return None; },
    };
    let accumulator = match position_of(params, acc_name) {
        Some(i) => i,
        None => { return None; },
    };
    proof { lemma_position_bound(names_of(params@), acc_name@); }
    let (combiner, element) = match combiner_of(&args[accumulator], &params[accumulator]) {
        Some(found) => found,
        None => { return None; },
    };
    let ghost ps = names_of(params@);
    let ghost ts = terms_of(args@);
    assert(ps.len() == params.len());
    let mut counter: Option<(usize, i64)> = None;
    let mut index: usize = 0;
    while index < params.len()
        invariant
            index <= params.len(),
            params.len() == args.len(),
            accumulator < params.len(),
            ps == names_of(params@),
            ts == terms_of(args@),
            ts.len() == args@.len(),
            forall|j: int| 0 <= j < args@.len() ==> #[trigger] ts[j] == term_of(args@[j]),
            counter_scan(ps, ts, accumulator as int, index as int) == Some(
                match counter {
                    Some((c, d)) => Some((c as int, d as int)),
                    None => None::<(int, int)>,
                },
            ),
            counter matches Some((c, d)) ==> c < params.len() && (d == 1 || d == -1),
        decreases params.len() - index,
    {
        if index != accumulator {
            match step_of(&args[index], &params[index]) {
                Some(delta) => {
                    if counter.is_some() {
                        proof { lemma_scan_failure_persists(ps, ts, accumulator as int, index + 1, params.len() as int); }
                        return None;
                    }
                    counter = Some((index, delta));
                },
                None => {
                    if !is_var_named(&args[index], &params[index]) {
                        proof { lemma_scan_failure_persists(ps, ts, accumulator as int, index + 1, params.len() as int); }
                        return None;
                    }
                },
            }
        }
        index = index + 1;
    }
    let (counter, delta) = match counter {
        Some(found) => found,
        None => { return None; },
    };
    let (op, sides) = match &**condition {
        Expr::Primitive { op, args } => (op, args),
        _ => {
            proof { assert(!(term_of(**condition) is Primitive)); }
            return None;
        },
    };
    proof { lemma_terms_of(sides@); }
    let guard = match op {
        Primitive::Eq => Guard::Eq,
        Primitive::Lt => Guard::Lt,
        Primitive::Le => Guard::Le,
        Primitive::Gt => Guard::Gt,
        Primitive::Ge => Guard::Ge,
        _ => { return None; },
    };
    if sides.len() != 2 || !is_var_named(&sides[0], &params[counter]) {
        return None;
    }
    let bound = match &sides[1] {
        Expr::Number(v) => Bound::Literal(*v),
        Expr::Var(name) => match position_of(params, name) {
            Some(i) => if i != counter && i != accumulator {
                proof { lemma_position_bound(names_of(params@), name@); }
                Bound::Param(i)
            } else {
                return None;
            },
            None => { return None; },
        },
        _ => { return None; },
    };
    if !reads_only_name(&element, &params[counter]) || calls_name(&element, &definition.name) {
        return None;
    }
    Some(
        Reduction {
            name: definition.name.clone(),
            params: copy_names(params),
            counter,
            accumulator,
            bound,
            guard,
            delta,
            combiner,
            element,
        },
    )
}


/// Replace every `Var(from)` with `to`.
pub open spec fn substitute(t: Term, from: Seq<char>, to: Term) -> Term
    decreases t,
{
    match t {
        Term::Var(name) => if name == from {
            to
        } else {
            t
        },
        Term::Number(_) | Term::Bool(_) | Term::Nil => t,
        Term::Primitive { op, args } => Term::Primitive { op, args: substitute_all(args, from, to) },
        Term::Call { callee, args } => Term::Call { callee, args: substitute_all(args, from, to) },
        Term::If { condition, then_branch, else_branch } => Term::If {
            condition: Box::new(substitute(*condition, from, to)),
            then_branch: Box::new(substitute(*then_branch, from, to)),
            else_branch: Box::new(substitute(*else_branch, from, to)),
        },
        Term::Let { bindings, body } => Term::Let {
            bindings: substitute_bindings(bindings, from, to),
            body: Box::new(substitute(*body, from, to)),
        },
        Term::Cons(a, b) => Term::Cons(
            Box::new(substitute(*a, from, to)),
            Box::new(substitute(*b, from, to)),
        ),
        Term::Car(a) => Term::Car(Box::new(substitute(*a, from, to))),
        Term::Cdr(a) => Term::Cdr(Box::new(substitute(*a, from, to))),
        Term::Null(a) => Term::Null(Box::new(substitute(*a, from, to))),
    }
}

pub open spec fn substitute_all(s: Seq<Term>, from: Seq<char>, to: Term) -> Seq<Term>
    decreases s,
{
    if s.len() == 0 {
        s
    } else {
        substitute_all(s.drop_last(), from, to).push(substitute(s.last(), from, to))
    }
}

pub open spec fn substitute_bindings(s: Seq<(Seq<char>, Term)>, from: Seq<char>, to: Term) -> Seq<
    (Seq<char>, Term),
>
    decreases s,
{
    if s.len() == 0 {
        s
    } else {
        substitute_bindings(s.drop_last(), from, to).push(
            (s.last().0, substitute(s.last().1, from, to)),
        )
    }
}

/// Replace every `Var(from)` with `to`.
#[verifier::loop_isolation(false)]
pub fn substitute_var(e: &Expr, from: &String, to: &Expr) -> (r: Expr)
    ensures
        r@ == substitute(e@, from@, to@),
    decreases e,
{
    match e {
        Expr::Var(name) => if text::same_text(name, from) {
            copy_expr(to)
        } else {
            Expr::Var(name.clone())
        },
        Expr::Number(n) => Expr::Number(*n),
        Expr::Bool(b) => Expr::Bool(*b),
        Expr::Nil => Expr::Nil,
        Expr::Primitive { op, args } => {
            let mut out: Vec<Expr> = Vec::new();
            let mut i: usize = 0;
            while i < args.len()
                invariant
                    i <= args.len(),
                    terms_of(out@) == substitute_all(terms_of(args@.take(i as int)), from@, to@),
                decreases args.len() - i,
            {
                proof {
                    assert(decreases_to!(e => args@[i as int]));
                    assert(args@.take(i + 1).drop_last() =~= args@.take(i as int));
                    let pre = terms_of(args@.take(i as int));
                    assert(pre.push(term_of(args@[i as int])).drop_last() =~= pre);
                }
                let x = substitute_var(&args[i], from, to);
                proof { assert(out@.push(x).drop_last() =~= out@); }
                out.push(x);
                i = i + 1;
            }
            proof { assert(args@.take(args.len() as int) =~= args@); }
            Expr::Primitive { op: *op, args: out }
        },
        Expr::Call { callee, args } => {
            let mut out: Vec<Expr> = Vec::new();
            let mut i: usize = 0;
            while i < args.len()
                invariant
                    i <= args.len(),
                    terms_of(out@) == substitute_all(terms_of(args@.take(i as int)), from@, to@),
                decreases args.len() - i,
            {
                proof {
                    assert(decreases_to!(e => args@[i as int]));
                    assert(args@.take(i + 1).drop_last() =~= args@.take(i as int));
                    let pre = terms_of(args@.take(i as int));
                    assert(pre.push(term_of(args@[i as int])).drop_last() =~= pre);
                }
                let x = substitute_var(&args[i], from, to);
                proof { assert(out@.push(x).drop_last() =~= out@); }
                out.push(x);
                i = i + 1;
            }
            proof { assert(args@.take(args.len() as int) =~= args@); }
            Expr::Call { callee: callee.clone(), args: out }
        },
        Expr::If { condition, then_branch, else_branch } => Expr::If {
            condition: Box::new(substitute_var(condition, from, to)),
            then_branch: Box::new(substitute_var(then_branch, from, to)),
            else_branch: Box::new(substitute_var(else_branch, from, to)),
        },
        Expr::Let { bindings, body } => {
            let mut out: Vec<(String, Expr)> = Vec::new();
            let mut i: usize = 0;
            while i < bindings.len()
                invariant
                    i <= bindings.len(),
                    binding_terms_of(out@) == substitute_bindings(
                        binding_terms_of(bindings@.take(i as int)),
                        from@,
                        to@,
                    ),
                decreases bindings.len() - i,
            {
                proof {
                    assert(decreases_to!(e => bindings@[i as int].1));
                    assert(bindings@.take(i + 1).drop_last() =~= bindings@.take(i as int));
                    let pre = binding_terms_of(bindings@.take(i as int));
                    let b = bindings@[i as int];
                    assert(pre.push((b.0@, term_of(b.1))).drop_last() =~= pre);
                }
                let pair = (bindings[i].0.clone(), substitute_var(&bindings[i].1, from, to));
                proof { assert(out@.push(pair).drop_last() =~= out@); }
                out.push(pair);
                i = i + 1;
            }
            proof { assert(bindings@.take(bindings.len() as int) =~= bindings@); }
            Expr::Let { bindings: out, body: Box::new(substitute_var(body, from, to)) }
        },
        Expr::Cons(a, b) => Expr::Cons(
            Box::new(substitute_var(a, from, to)),
            Box::new(substitute_var(b, from, to)),
        ),
        Expr::Car(a) => Expr::Car(Box::new(substitute_var(a, from, to))),
        Expr::Cdr(a) => Expr::Cdr(Box::new(substitute_var(a, from, to))),
        Expr::Null(a) => Expr::Null(Box::new(substitute_var(a, from, to))),
    }
}

/// The combiner's identity element, so an empty range is neutral.
pub open spec fn identity_term(combiner: Primitive) -> Term {
    match combiner {
        Primitive::Mul => Term::Number(1),
        _ => Term::Number(0),
    }
}

pub open spec fn combine_term(combiner: Primitive, left: Term, right: Term) -> Term {
    Term::Primitive { op: combiner, args: seq![left, right] }
}

/// The inclusive ascending counter range a call visits, if it is a
/// non-negative, non-empty range the reduction can be split over.
pub open spec fn range_of(red: RedTerm, args: Seq<Term>) -> Option<(int, int)> {
    if !(0 <= red.counter < args.len()) {
        None
    } else {
        match number_value(args[red.counter]) {
            None => None,
            Some(start) => {
                let stop_opt: Option<int> = match red.bound {
                    Bound::Literal(v) => Some(v as int),
                    Bound::Param(i) => if i < args.len() {
                        match number_value(args[i as int]) {
                            Some(v) => Some(v as int),
                            None => None,
                        }
                    } else {
                        None
                    },
                };
                match stop_opt {
                    None => None,
                    Some(stop) => {
                        let last_opt: Option<int> = if red.delta > 0 {
                            match red.guard {
                                Guard::Gt => Some(stop),
                                Guard::Ge | Guard::Eq => Some(stop - 1),
                                _ => None,
                            }
                        } else {
                            match red.guard {
                                Guard::Eq | Guard::Le => Some(stop + 1),
                                Guard::Lt => Some(stop),
                                _ => None,
                            }
                        };
                        match last_opt {
                            None => None,
                            Some(last) => {
                                let (lo, hi) = if red.delta > 0 {
                                    (start as int, last)
                                } else {
                                    (last, start as int)
                                };
                                if lo < 0 || lo > hi {
                                    None
                                } else {
                                    Some((lo, hi))
                                }
                            },
                        }
                    },
                }
            },
        }
    }
}

/// A call to the recognized chain covering `[lo, hi]`: only the ascending form
/// whose bound is its second parameter, `f(lo, hi, identity)`, can express a
/// sub-range as one call.
pub open spec fn segment(red: RedTerm, lo: int, hi: int) -> Option<Term> {
    if red.delta > 0 && red.guard == Guard::Gt && red.counter == 0 && red.accumulator == 2
        && red.bound == Bound::Param(1) && red.params.len() == 3 {
        Some(
            Term::Call {
                callee: red.name,
                args: seq![Term::Number(lo as i64), Term::Number(hi as i64), identity_term(red.combiner)],
            },
        )
    } else {
        None
    }
}

/// `k` chain segments over `[lo, hi]`, combined by a balanced tree.
pub open spec fn chunked(red: RedTerm, lo: int, hi: int, k: nat) -> Option<Term>
    decreases k,
{
    if k <= 1 || lo >= hi {
        segment(red, lo, hi)
    } else {
        let left = k / 2;
        let right = (k - left) as nat;
        let mid = lo + (hi - lo) / 2;
        match (chunked(red, lo, mid, left), chunked(red, mid + 1, hi, right)) {
            (Some(a), Some(b)) => Some(combine_term(red.combiner, a, b)),
            _ => None,
        }
    }
}

/// The body of `def <name>(shapeLo, shapeHi)`, reducing `[lo, hi]` in a
/// balanced tree with midpoints `lo + (hi - lo) / 2`.
pub open spec fn balanced_body(name: Seq<char>, red: RedTerm) -> Term {
    let lo = Term::Var("shapeLo"@);
    let hi = Term::Var("shapeHi"@);
    let mid = Term::Var("shapeMid"@);
    let midpoint = Term::Primitive {
        op: Primitive::Add,
        args: seq![
            lo,
            Term::Primitive {
                op: Primitive::Div,
                args: seq![Term::Primitive { op: Primitive::Sub, args: seq![hi, lo] }, Term::Number(2)],
            },
        ],
    };
    let descend = Term::Let {
        bindings: seq![("shapeMid"@, midpoint)],
        body: Box::new(
            combine_term(
                red.combiner,
                Term::Call { callee: name, args: seq![lo, mid] },
                Term::Call {
                    callee: name,
                    args: seq![Term::Primitive { op: Primitive::Add, args: seq![mid, Term::Number(1)] }, hi],
                },
            ),
        ),
    };
    Term::If {
        condition: Box::new(Term::Primitive { op: Primitive::Gt, args: seq![lo, hi] }),
        then_branch: Box::new(identity_term(red.combiner)),
        else_branch: Box::new(
            Term::If {
                condition: Box::new(Term::Primitive { op: Primitive::Eq, args: seq![lo, hi] }),
                then_branch: Box::new(substitute(red.element, red.params[red.counter], lo)),
                else_branch: Box::new(descend),
            },
        ),
    }
}

pub open spec fn balanced_def(name: Seq<char>, red: RedTerm) -> DefTerm {
    DefTerm { name, params: seq!["shapeLo"@, "shapeHi"@], body: balanced_body(name, red) }
}


/// Names `"shapeLo"`-style locals of the balanced helper.
fn name_text(t: &str) -> (r: String)
    ensures
        r@ == t@,
{
    String::from_str(t)
}

impl Reduction {
    /// Well formed: the counter and accumulator index the parameters.
    pub open spec fn wf(&self) -> bool {
        &&& self.counter < self.params.len()
        &&& self.accumulator < self.params.len()
    }

    pub fn counter_name(&self) -> (r: &String)
        requires
            self.wf(),
        ensures
            r@ == self@.params[self@.counter],
    {
        &self.params[self.counter]
    }

    /// The identity element of the combiner, so an empty range is neutral.
    pub fn identity(&self) -> (r: Expr)
        ensures
            r@ == identity_term(self.combiner),
    {
        match self.combiner {
            Primitive::Mul => Expr::Number(1),
            _ => Expr::Number(0),
        }
    }

    /// Combine two values. Sound under wrapping: 2^24 is a ring, so `+` and
    /// `*` agree at every association.
    pub fn combine(&self, left: Expr, right: Expr) -> (r: Expr)
        ensures
            r@ == combine_term(self.combiner, left@, right@),
    {
        prim2(self.combiner, left, right)
    }

    /// The element for one counter value.
    pub fn leaf(&self, value: Expr) -> (r: Expr)
        requires
            self.wf(),
        ensures
            r@ == substitute(self@.element, self@.params[self@.counter], value@),
    {
        substitute_var(&self.element, self.counter_name(), &value)
    }

    /// The inclusive ascending counter range the loop visits, given a call.
    pub fn range(&self, args: &Vec<Expr>) -> (r: Option<(i64, i64)>)
        ensures
            r matches Some((lo, hi)) ==> range_of(self@, terms_of(args@)) == Some((lo as int, hi as int)),
            r is None ==> range_of(self@, terms_of(args@)) is None,
    {
        proof { lemma_terms_of(args@); }
        if self.counter >= args.len() {
            return None;
        }
        let start = match as_int(&args[self.counter]) {
            Some(v) => v,
            None => { return None; },
        };
        let stop: i64 = match self.bound {
            Bound::Literal(v) => v,
            Bound::Param(i) => {
                if i >= args.len() {
                    return None;
                }
                match as_int(&args[i]) {
                    Some(v) => v,
                    None => { return None; },
                }
            },
        };
        let stop = stop as i128;
        let last: i128 = if self.delta > 0 {
            match self.guard {
                Guard::Gt => stop,
                Guard::Ge | Guard::Eq => stop - 1,
                _ => { return None; },
            }
        } else {
            match self.guard {
                Guard::Eq | Guard::Le => stop + 1,
                Guard::Lt => stop,
                _ => { return None; },
            }
        };
        let (lo, hi): (i128, i128) = if self.delta > 0 {
            (start as i128, last)
        } else {
            (last, start as i128)
        };
        if lo < 0 || lo > hi {
            return None;
        }
        Some((lo as i64, hi as i64))
    }

    /// A call to the recognized chain covering the counter range `[lo, hi]`, or
    /// `None` when the reduction cannot express a sub-range as one call.
    pub fn segment_call(&self, lo: i64, hi: i64) -> (r: Option<Expr>)
        ensures
            r matches Some(e) ==> segment(self@, lo as int, hi as int) == Some(e@),
            r is None ==> segment(self@, lo as int, hi as int) is None,
    {
        let ascending = self.delta > 0 && matches!(self.guard, Guard::Gt) && self.counter == 0
            && self.accumulator == 2 && matches!(self.bound, Bound::Param(1)) && self.params.len()
            == 3;
        if !ascending {
            return None;
        }
        let args = vec![Expr::Number(lo), Expr::Number(hi), self.identity()];
        proof {
            lemma_terms_of(args@);
            assert(terms_of(args@) =~= seq![Term::Number(lo), Term::Number(hi), identity_term(self.combiner)]);
        }
        Some(Expr::Call { callee: self.name.clone(), args })
    }
}

/// `k` chain segments over `[lo, hi]`, combined by a balanced tree.
///
/// Split points are compile-time constants, so the leaves are calls to the
/// recognized chain with literal bounds.
fn chunked_tree(reduction: &Reduction, lo: i64, hi: i64, k: u32) -> (r: Option<Expr>)
    requires
        0 <= lo,
    ensures
        r matches Some(e) ==> chunked(reduction@, lo as int, hi as int, k as nat) == Some(e@),
        r is None ==> chunked(reduction@, lo as int, hi as int, k as nat) is None,
    decreases k,
{
    if k <= 1 || lo >= hi {
        return reduction.segment_call(lo, hi);
    }
    let left = k / 2;
    let right = k - left;
    let mid = lo + (hi - lo) / 2;
    let a = match chunked_tree(reduction, lo, mid, left) {
        Some(a) => a,
        None => { return None; },
    };
    let b = match chunked_tree(reduction, mid + 1, hi, right) {
        Some(b) => b,
        None => { return None; },
    };
    Some(reduction.combine(a, b))
}

/// The generated helper's name.
///
/// Suffixed rather than prefixed so a reduction's own name stays the head of
/// it, which keeps the emitted Bend readable next to the function it came
/// from.
pub fn helper_name(name: &String) -> (r: String)
    ensures
        r@ == name@ + "ShapeBalanced"@,
{
    let mut r = name.clone();
    text::push_str(&mut r, "ShapeBalanced");
    r
}

fn var(t: &str) -> (r: Expr)
    ensures
        r@ == Term::Var(t@),
{
    Expr::Var(name_text(t))
}

fn prim2(op: Primitive, a: Expr, b: Expr) -> (r: Expr)
    ensures
        r@ == (Term::Primitive { op, args: seq![a@, b@] }),
{
    let args = vec![a, b];
    proof {
        lemma_terms_of(args@);
        assert(terms_of(args@) =~= seq![args@[0]@, args@[1]@]);
    }
    Expr::Primitive { op, args }
}

fn call2(name: &String, a: Expr, b: Expr) -> (r: Expr)
    ensures
        r@ == (Term::Call { callee: name@, args: seq![a@, b@] }),
{
    let args = vec![a, b];
    proof {
        lemma_terms_of(args@);
        assert(terms_of(args@) =~= seq![args@[0]@, args@[1]@]);
    }
    Expr::Call { callee: name.clone(), args }
}

/// `def <name>(shapeLo, shapeHi)` reducing `[lo, hi]` in a balanced tree.
///
/// Midpoints are `lo + (hi - lo) / 2` rather than `(lo + hi) / 2`: the
/// subtraction cannot wrap for the non-negative bounds this pass requires,
/// and the form is well founded for any `lo <= hi`.
pub fn balanced_definition(name: &String, reduction: &Reduction) -> (r: Definition)
    requires
        reduction.wf(),
    ensures
        r@ == balanced_def(name@, reduction@),
{
    let midpoint = prim2(
        Primitive::Add,
        var("shapeLo"),
        prim2(Primitive::Div, prim2(Primitive::Sub, var("shapeHi"), var("shapeLo")), Expr::Number(2)),
    );
    let bindings = vec![(name_text("shapeMid"), midpoint)];
    proof {
        lemma_binding_terms_of(bindings@);
        assert(binding_terms_of(bindings@) =~= seq![("shapeMid"@, bindings@[0].1@)]);
    }
    let descend = Expr::Let {
        bindings,
        body: Box::new(
            reduction.combine(
                call2(name, var("shapeLo"), var("shapeMid")),
                call2(name, prim2(Primitive::Add, var("shapeMid"), Expr::Number(1)), var("shapeHi")),
            ),
        ),
    };
    proof {
        let lo = Term::Var("shapeLo"@);
        let hi = Term::Var("shapeHi"@);
        let mid = Term::Var("shapeMid"@);
        let spec_midpoint = Term::Primitive {
            op: Primitive::Add,
            args: seq![
                lo,
                Term::Primitive {
                    op: Primitive::Div,
                    args: seq![Term::Primitive { op: Primitive::Sub, args: seq![hi, lo] }, Term::Number(2)],
                },
            ],
        };
        match descend@ {
            Term::Let { bindings: bs, body: b } => {
                assert(bs =~= seq![("shapeMid"@, spec_midpoint)]);
                assert(*b == combine_term(
                    reduction.combiner,
                    Term::Call { callee: name@, args: seq![lo, mid] },
                    Term::Call {
                        callee: name@,
                        args: seq![Term::Primitive { op: Primitive::Add, args: seq![mid, Term::Number(1)] }, hi],
                    },
                ));
            },
            _ => { assert(false); },
        }
    }
    let leaf = reduction.leaf(var("shapeLo"));
    let inner = Expr::If {
        condition: Box::new(prim2(Primitive::Eq, var("shapeLo"), var("shapeHi"))),
        then_branch: Box::new(leaf),
        else_branch: Box::new(descend),
    };
    assert(inner@ == balanced_body(name@, reduction@)->else_branch);
    let body = Expr::If {
        condition: Box::new(prim2(Primitive::Gt, var("shapeLo"), var("shapeHi"))),
        then_branch: Box::new(reduction.identity()),
        else_branch: Box::new(inner),
    };
    let params = vec![name_text("shapeLo"), name_text("shapeHi")];
    proof {
        assert(names_of(params@) =~= seq!["shapeLo"@, "shapeHi"@]);
        assert(body@ == balanced_body(name@, reduction@));
    }
    Definition { name: name.clone(), params, body }
}


/// The generated helpers so far: each helper's name and the reduction it
/// reduces, in the order they were generated.
pub type Generated = Seq<(Seq<char>, RedTerm)>;

/// The latest reduction recognized under `name`.
pub open spec fn find_red(reds: Seq<(Seq<char>, RedTerm)>, name: Seq<char>) -> Option<RedTerm>
    decreases reds.len(),
{
    if reds.len() == 0 {
        None
    } else if reds.last().0 == name {
        Some(reds.last().1)
    } else {
        find_red(reds.drop_last(), name)
    }
}

pub open spec fn has_helper(gen: Generated, helper: Seq<char>) -> bool {
    exists|i: int| 0 <= i < gen.len() && gen[i].0 == helper
}

/// The replacement for a call with rewritten `args`, if this call site is
/// worth reshaping, and the helpers generated afterwards.
pub open spec fn replacement(
    reds: Seq<(Seq<char>, RedTerm)>,
    shape: Shape,
    callee: Seq<char>,
    args: Seq<Term>,
    gen: Generated,
) -> (Option<Term>, Generated) {
    match find_red(reds, callee) {
        None => (None, gen),
        Some(red) => match range_of(red, args) {
            None => (None, gen),
            Some((lo, hi)) => if hi - lo + 1 < MIN_RESHAPE_SPAN && !has_call(red.element) {
                (None, gen)
            } else if !(0 <= red.accumulator < args.len()) {
                (None, gen)
            } else {
                let init = args[red.accumulator];
                match shape {
                    Shape::AsWritten => (None, gen),
                    Shape::Balanced => {
                        let helper = callee + "ShapeBalanced"@;
                        (
                            Some(
                                combine_term(
                                    red.combiner,
                                    init,
                                    Term::Call {
                                        callee: helper,
                                        args: seq![Term::Number(lo as i64), Term::Number(hi as i64)],
                                    },
                                ),
                            ),
                            if has_helper(gen, helper) {
                                gen
                            } else {
                                gen.push((helper, red))
                            },
                        )
                    },
                    Shape::Chunked(k) => match chunked(red, lo, hi, k as nat) {
                        None => (None, gen),
                        Some(t) => (Some(combine_term(red.combiner, init, t)), gen),
                    },
                }
            },
        },
    }
}

/// `t` rebuilt with every reshapeable call replaced. Replacements are taken
/// whole rather than re-walked, so a generated call is not rewritten again.
pub open spec fn rewrite(reds: Seq<(Seq<char>, RedTerm)>, shape: Shape, t: Term, gen: Generated) -> (
    Term,
    Generated,
)
    decreases t,
{
    match t {
        Term::Call { callee, args } => {
            let (a, g1) = rewrite_all(reds, shape, args, gen);
            match replacement(reds, shape, callee, a, g1) {
                (Some(r), g2) => (r, g2),
                (None, g2) => (Term::Call { callee, args: a }, g2),
            }
        },
        Term::Primitive { op, args } => {
            let (a, g1) = rewrite_all(reds, shape, args, gen);
            (Term::Primitive { op, args: a }, g1)
        },
        Term::If { condition, then_branch, else_branch } => {
            let (c, g1) = rewrite(reds, shape, *condition, gen);
            let (a, g2) = rewrite(reds, shape, *then_branch, g1);
            let (b, g3) = rewrite(reds, shape, *else_branch, g2);
            (Term::If { condition: Box::new(c), then_branch: Box::new(a), else_branch: Box::new(b) }, g3)
        },
        Term::Let { bindings, body } => {
            let (bs, g1) = rewrite_bindings(reds, shape, bindings, gen);
            let (b, g2) = rewrite(reds, shape, *body, g1);
            (Term::Let { bindings: bs, body: Box::new(b) }, g2)
        },
        Term::Cons(a, b) => {
            let (x, g1) = rewrite(reds, shape, *a, gen);
            let (y, g2) = rewrite(reds, shape, *b, g1);
            (Term::Cons(Box::new(x), Box::new(y)), g2)
        },
        Term::Car(a) => {
            let (x, g1) = rewrite(reds, shape, *a, gen);
            (Term::Car(Box::new(x)), g1)
        },
        Term::Cdr(a) => {
            let (x, g1) = rewrite(reds, shape, *a, gen);
            (Term::Cdr(Box::new(x)), g1)
        },
        Term::Null(a) => {
            let (x, g1) = rewrite(reds, shape, *a, gen);
            (Term::Null(Box::new(x)), g1)
        },
        other => (other, gen),
    }
}

pub open spec fn rewrite_all(reds: Seq<(Seq<char>, RedTerm)>, shape: Shape, s: Seq<Term>, gen: Generated) -> (
    Seq<Term>,
    Generated,
)
    decreases s,
{
    if s.len() == 0 {
        (s, gen)
    } else {
        let (front, g1) = rewrite_all(reds, shape, s.drop_last(), gen);
        let (x, g2) = rewrite(reds, shape, s.last(), g1);
        (front.push(x), g2)
    }
}

pub open spec fn rewrite_bindings(
    reds: Seq<(Seq<char>, RedTerm)>,
    shape: Shape,
    s: Seq<(Seq<char>, Term)>,
    gen: Generated,
) -> (Seq<(Seq<char>, Term)>, Generated)
    decreases s,
{
    if s.len() == 0 {
        (s, gen)
    } else {
        let (front, g1) = rewrite_bindings(reds, shape, s.drop_last(), gen);
        let (x, g2) = rewrite(reds, shape, s.last().1, g1);
        (front.push((s.last().0, x)), g2)
    }
}

pub open spec fn reductions_of(v: Seq<(String, Reduction)>) -> Seq<(Seq<char>, RedTerm)> {
    v.map_values(|p: (String, Reduction)| (p.0@, p.1@))
}

/// Rewrites matching call sites anywhere in the program.
pub struct Rewriter<'a> {
    pub reductions: &'a Vec<(String, Reduction)>,
    pub shape: Shape,
    pub generated: Vec<Definition>,
    pub helpers: Vec<String>,
    /// The helpers generated so far, with their reductions.
    pub trail: Ghost<Generated>,
}

fn contains_text(v: &Vec<String>, x: &String) -> (r: bool)
    ensures
        r == exists|i: int| 0 <= i < v@.len() && v@[i]@ == x@,
{
    let mut i: usize = 0;
    while i < v.len()
        invariant
            i <= v.len(),
            forall|j: int| 0 <= j < i ==> v@[j]@ != x@,
        decreases v.len() - i,
    {
        if text::same_text(&v[i], x) {
            return true;
        }
        i = i + 1;
    }
    false
}

fn find_reduction<'a>(reds: &'a Vec<(String, Reduction)>, name: &String) -> (r: Option<&'a Reduction>)
    ensures
        r matches Some(red) ==> find_red(reductions_of(reds@), name@) == Some(red@) && exists|i: int|
            0 <= i < reds@.len() && reds@[i].1 == *red,
        r is None ==> find_red(reductions_of(reds@), name@) is None,
{
    let mut i: usize = reds.len();
    proof { assert(reds@.take(reds.len() as int) =~= reds@); }
    while i > 0
        invariant
            i <= reds.len(),
            find_red(reductions_of(reds@), name@) == find_red(reductions_of(reds@.take(i as int)), name@),
        decreases i,
    {
        proof {
            assert(reductions_of(reds@.take(i as int)).drop_last() =~= reductions_of(reds@.take(i - 1)));
        }
        if text::same_text(&reds[i - 1].0, name) {
            return Some(&reds[i - 1].1);
        }
        i = i - 1;
    }
    None
}

impl<'a> Rewriter<'a> {
    /// The helpers generated so far are the trail's balanced definitions,
    /// and every known reduction is well formed.
    pub open spec fn wf(&self) -> bool {
        &&& self.helpers@.len() == self.trail@.len()
        &&& self.generated@.len() == self.trail@.len()
        &&& forall|i: int|
            0 <= i < self.trail@.len() ==> #[trigger] self.helpers@[i]@ == self.trail@[i].0
                && self.generated@[i]@ == balanced_def(self.trail@[i].0, self.trail@[i].1)
        &&& forall|i: int| 0 <= i < self.reductions@.len() ==> (#[trigger] self.reductions@[i]).1.wf()
    }

    /// The replacement for a call, if this call site is worth reshaping.
    pub fn replacement(&mut self, callee: &String, args: &Vec<Expr>) -> (r: Option<Expr>)
        requires
            old(self).wf(),
        ensures
            final(self).wf(),
            final(self).reductions == old(self).reductions,
            final(self).shape == old(self).shape,
            (option_term(r), final(self).trail@) == replacement(
                reductions_of(old(self).reductions@),
                old(self).shape,
                callee@,
                terms_of(args@),
                old(self).trail@,
            ),
    {
        proof { lemma_terms_of(args@); }
        let reduction = match find_reduction(self.reductions, callee) {
            Some(red) => red,
            None => { return None; },
        };
        let (lo, hi) = match reduction.range(args) {
            Some(range) => range,
            None => { return None; },
        };
        if (hi as i128) - (lo as i128) + 1 < MIN_RESHAPE_SPAN as i128 && !contains_call(&reduction.element) {
            return None;
        }
        if reduction.accumulator >= args.len() {
            return None;
        }
        let init = copy_expr(&args[reduction.accumulator]);
        match self.shape {
            Shape::AsWritten => None,
            Shape::Balanced => {
                let helper = helper_name(callee);
                let known = contains_text(&self.helpers, &helper);
                let call = call2(&helper, Expr::Number(lo), Expr::Number(hi));
                if !known {
                    let definition = balanced_definition(&helper, reduction);
                    proof {
                        assert forall|i: int| 0 <= i < self.trail@.len() implies self.trail@[i].0 != helper@ by {
                            assert(self.helpers@[i]@ == self.trail@[i].0);
                        }
                        assert(!has_helper(self.trail@, helper@));
                        self.trail@ = self.trail@.push((helper@, reduction@));
                    }
                    self.helpers.push(helper);
                    self.generated.push(definition);
                } else {
                    proof {
                        let i = choose|i: int| 0 <= i < self.helpers@.len() && self.helpers@[i]@ == helper@;
                        assert(self.trail@[i].0 == helper@);
                    }
                }
                Some(reduction.combine(init, call))
            },
            Shape::Chunked(k) => match chunked_tree(reduction, lo, hi, k) {
                Some(t) => Some(reduction.combine(init, t)),
                None => None,
            },
        }
    }

    /// Rebuild `expr`, replacing reshapeable calls. Replacements are returned
    /// whole rather than re-walked, so a generated call inside one cannot be
    /// rewritten again.
    pub fn expr(&mut self, expr: &Expr) -> (r: Expr)
        requires
            old(self).wf(),
        ensures
            final(self).wf(),
            final(self).reductions == old(self).reductions,
            final(self).shape == old(self).shape,
            (r@, final(self).trail@) == rewrite(
                reductions_of(old(self).reductions@),
                old(self).shape,
                expr@,
                old(self).trail@,
            ),
        decreases expr,
    {
        match expr {
            Expr::Call { callee, args } => {
                let args = self.all(args);
                match self.replacement(callee, &args) {
                    Some(r) => r,
                    None => Expr::Call { callee: callee.clone(), args },
                }
            },
            Expr::Primitive { op, args } => {
                let args = self.all(args);
                Expr::Primitive { op: *op, args }
            },
            Expr::If { condition, then_branch, else_branch } => {
                let c = self.expr(condition);
                let a = self.expr(then_branch);
                let b = self.expr(else_branch);
                Expr::If { condition: Box::new(c), then_branch: Box::new(a), else_branch: Box::new(b) }
            },
            Expr::Let { bindings, body } => {
                let bs = self.bindings(bindings);
                let b = self.expr(body);
                Expr::Let { bindings: bs, body: Box::new(b) }
            },
            Expr::Cons(a, b) => {
                let x = self.expr(a);
                let y = self.expr(b);
                Expr::Cons(Box::new(x), Box::new(y))
            },
            Expr::Car(a) => Expr::Car(Box::new(self.expr(a))),
            Expr::Cdr(a) => Expr::Cdr(Box::new(self.expr(a))),
            Expr::Null(a) => Expr::Null(Box::new(self.expr(a))),
            other => copy_expr(other),
        }
    }

    /// Rebuild each expression in turn.
    pub fn all(&mut self, args: &Vec<Expr>) -> (r: Vec<Expr>)
        requires
            old(self).wf(),
        ensures
            final(self).wf(),
            final(self).reductions == old(self).reductions,
            final(self).shape == old(self).shape,
            (terms_of(r@), final(self).trail@) == rewrite_all(
                reductions_of(old(self).reductions@),
                old(self).shape,
                terms_of(args@),
                old(self).trail@,
            ),
        decreases args,
    {
        let mut out: Vec<Expr> = Vec::new();
        let mut i: usize = 0;
        while i < args.len()
            invariant
                i <= args.len(),
                self.wf(),
                self.reductions == old(self).reductions,
                self.shape == old(self).shape,
                (terms_of(out@), self.trail@) == rewrite_all(
                    reductions_of(self.reductions@),
                    self.shape,
                    terms_of(args@.take(i as int)),
                    old(self).trail@,
                ),
            decreases args.len() - i,
        {
            proof {
                assert(decreases_to!(args => args@[i as int]));
                assert(args@.take(i + 1).drop_last() =~= args@.take(i as int));
                let pre = terms_of(args@.take(i as int));
                assert(pre.push(term_of(args@[i as int])).drop_last() =~= pre);
            }
            let x = self.expr(&args[i]);
            proof { assert(out@.push(x).drop_last() =~= out@); }
            out.push(x);
            i = i + 1;
        }
        proof { assert(args@.take(args.len() as int) =~= args@); }
        out
    }

    /// Rebuild each binding's value in turn.
    pub fn bindings(&mut self, bindings: &Vec<(String, Expr)>) -> (r: Vec<(String, Expr)>)
        requires
            old(self).wf(),
        ensures
            final(self).wf(),
            final(self).reductions == old(self).reductions,
            final(self).shape == old(self).shape,
            (binding_terms_of(r@), final(self).trail@) == rewrite_bindings(
                reductions_of(old(self).reductions@),
                old(self).shape,
                binding_terms_of(bindings@),
                old(self).trail@,
            ),
        decreases bindings,
    {
        let mut out: Vec<(String, Expr)> = Vec::new();
        let mut i: usize = 0;
        while i < bindings.len()
            invariant
                i <= bindings.len(),
                self.wf(),
                self.reductions == old(self).reductions,
                self.shape == old(self).shape,
                (binding_terms_of(out@), self.trail@) == rewrite_bindings(
                    reductions_of(self.reductions@),
                    self.shape,
                    binding_terms_of(bindings@.take(i as int)),
                    old(self).trail@,
                ),
            decreases bindings.len() - i,
        {
            proof {
                assert(decreases_to!(bindings => bindings@[i as int].1));
                assert(bindings@.take(i + 1).drop_last() =~= bindings@.take(i as int));
                let pre = binding_terms_of(bindings@.take(i as int));
                let b = bindings@[i as int];
                assert(pre.push((b.0@, term_of(b.1))).drop_last() =~= pre);
            }
            let pair = (bindings[i].0.clone(), self.expr(&bindings[i].1));
            proof { assert(out@.push(pair).drop_last() =~= out@); }
            out.push(pair);
            i = i + 1;
        }
        proof { assert(bindings@.take(bindings.len() as int) =~= bindings@); }
        out
    }
}

/// The reductions recognized among `defs`, under their definitions' names.
pub open spec fn recognized_all(defs: Seq<DefTerm>) -> Seq<(Seq<char>, RedTerm)>
    decreases defs.len(),
{
    if defs.len() == 0 {
        Seq::empty()
    } else {
        let front = recognized_all(defs.drop_last());
        match recognized(defs.last()) {
            Some(red) => front.push((defs.last().name, red)),
            None => front,
        }
    }
}

/// Each definition with its body rewritten, threading the generated helpers.
pub open spec fn rewrite_definitions(
    reds: Seq<(Seq<char>, RedTerm)>,
    shape: Shape,
    defs: Seq<DefTerm>,
    gen: Generated,
) -> (Seq<DefTerm>, Generated)
    decreases defs.len(),
{
    if defs.len() == 0 {
        (defs, gen)
    } else {
        let (front, g1) = rewrite_definitions(reds, shape, defs.drop_last(), gen);
        let d = defs.last();
        let (b, g2) = rewrite(reds, shape, d.body, g1);
        (front.push(DefTerm { name: d.name, params: d.params, body: b }), g2)
    }
}

/// The program with every recognized reduction call re-emitted in `shape`,
/// followed by the balanced helpers that the rewrite generated.
pub open spec fn reshaped(p: ProgramTerm, shape: Shape) -> ProgramTerm {
    let reds = recognized_all(p.definitions);
    if shape == Shape::AsWritten || reds.len() == 0 {
        p
    } else {
        let (defs, g1) = rewrite_definitions(reds, shape, p.definitions, Seq::empty());
        let (body, g2) = match p.body {
            Some(b) => {
                let (x, g) = rewrite(reds, shape, b, g1);
                (Some(x), g)
            },
            None => (None, g1),
        };
        ProgramTerm {
            definitions: defs + g2.map_values(|h: (Seq<char>, RedTerm)| balanced_def(h.0, h.1)),
            body,
        }
    }
}

/// Only `+` and `*` reductions are recognized: they are associative under
/// wrapping arithmetic, while `-` and truncating `/` are not.
pub proof fn lemma_only_associative_combiners(d: DefTerm)
    ensures
        recognized(d) matches Some(red) ==> (red.combiner is Add || red.combiner is Mul),
{
}

/// A call is reshaped only when the reduction's counter starts at a literal
/// and the range it visits is non-empty and non-negative, so every midpoint
/// the new shape computes lies inside that range.
pub proof fn lemma_reshaped_calls_have_literal_ranges(
    reds: Seq<(Seq<char>, RedTerm)>,
    shape: Shape,
    callee: Seq<char>,
    args: Seq<Term>,
    gen: Generated,
)
    requires
        replacement(reds, shape, callee, args, gen).0 is Some,
    ensures
        shape != Shape::AsWritten,
        find_red(reds, callee) is Some,
        ({
            let red = find_red(reds, callee).unwrap();
            &&& 0 <= red.counter < args.len()
            &&& number_value(args[red.counter]) is Some
            &&& range_of(red, args) is Some
            &&& 0 <= range_of(red, args).unwrap().0 <= range_of(red, args).unwrap().1
        }),
{
}

/// Shape `asis` leaves the program as written.
pub proof fn lemma_as_written_is_identity(p: ProgramTerm)
    ensures
        reshaped(p, Shape::AsWritten) == p,
{
}

/// Re-emit every recognized reduction call in `shape`.
pub fn apply(program: Program, shape: Shape) -> (r: Program)
    ensures
        r@ == reshaped(program@, shape),
        r.graphs == program.graphs,
{
    if matches!(shape, Shape::AsWritten) {
        return program;
    }
    let mut reductions: Vec<(String, Reduction)> = Vec::new();
    let mut i: usize = 0;
    while i < program.definitions.len()
        invariant
            i <= program.definitions.len(),
            reductions_of(reductions@) == recognized_all(defs_of(program.definitions@.take(i as int))),
            forall|j: int| 0 <= j < reductions@.len() ==> (#[trigger] reductions@[j]).1.wf(),
        decreases program.definitions.len() - i,
    {
        proof {
            assert(defs_of(program.definitions@.take(i + 1)).drop_last() =~= defs_of(program.definitions@.take(i as int)));
        }
        match recognize(&program.definitions[i]) {
            Some(red) => {
                let pair = (program.definitions[i].name.clone(), red);
                proof { assert(reductions_of(reductions@.push(pair)) =~= reductions_of(reductions@).push((pair.0@, pair.1@))); }
                reductions.push(pair);
            },
            None => {},
        }
        i = i + 1;
    }
    proof { assert(program.definitions@.take(program.definitions.len() as int) =~= program.definitions@); }
    if reductions.len() == 0 {
        proof { assert(reductions_of(reductions@).len() == 0); }
        return program;
    }
    let mut rewriter = Rewriter {
        reductions: &reductions,
        shape,
        generated: Vec::new(),
        helpers: Vec::new(),
        trail: Ghost(Seq::empty()),
    };
    let ghost reds = reductions_of(reductions@);
    let mut definitions: Vec<Definition> = Vec::new();
    let mut i: usize = 0;
    while i < program.definitions.len()
        invariant
            i <= program.definitions.len(),
            rewriter.wf(),
            rewriter.reductions == &reductions,
            rewriter.shape == shape,
            reds == reductions_of(reductions@),
            (defs_of(definitions@), rewriter.trail@) == rewrite_definitions(
                reds,
                shape,
                defs_of(program.definitions@.take(i as int)),
                Seq::empty(),
            ),
        decreases program.definitions.len() - i,
    {
        proof {
            assert(defs_of(program.definitions@.take(i + 1)).drop_last() =~= defs_of(program.definitions@.take(i as int)));
        }
        let d = &program.definitions[i];
        let body = rewriter.expr(&d.body);
        let nd = Definition { name: d.name.clone(), params: copy_names(&d.params), body };
        proof { assert(defs_of(definitions@.push(nd)) =~= defs_of(definitions@).push(nd@)); }
        definitions.push(nd);
        i = i + 1;
    }
    let body = match &program.body {
        Some(b) => Some(rewriter.expr(b)),
        None => None,
    };
    let ghost trail = rewriter.trail@;
    proof {
        assert forall|j: int| 0 <= j < trail.len() implies rewriter.generated@[j]@ == balanced_def(trail[j].0, trail[j].1) by {
            assert(rewriter.helpers@[j]@ == trail[j].0);
        }
        assert(defs_of(rewriter.generated@) =~= trail.map_values(|h: (Seq<char>, RedTerm)| balanced_def(h.0, h.1)));
    }
    let mut generated = rewriter.generated;
    proof {
        assert(defs_of(definitions@ + generated@) =~= defs_of(definitions@) + defs_of(generated@));
    }
    definitions.append(&mut generated);
    Program { definitions, graphs: program.graphs, body }
}

}
